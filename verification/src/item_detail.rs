//! The detail page of an item: what it is, how far it was listened to, and its chapters.
use crate::double::{
    at_least_zero, law_at_least_zero, law_minus, law_whole_minus, lemma_whole_value, one, rounded_part, tenths_text,
    whole, Double, Num,
};
use crate::downloads::rate_view;
use crate::models::{Item, Progress};
use crate::player::{fraction, fraction_of, holds_position, is_current, marked, ChapterInfo};
use crate::reading::{
    ends_with, is_decimal, is_number, law_digits_read_back, law_share_rounded, law_share_tenths, lemma_end,
    number_in, tenths_in, without_end,
};
use crate::rounding::{apart, lemma_within_exact, within};
use crate::sync::{copy_text, text_view};
use crate::text::{decimal, digits};
use vstd::arithmetic::power2::{lemma2_to64, lemma_pow2_pos, lemma_pow2_strictly_increases};
use vstd::prelude::*;

verus! {

/// A length in words: hours with one decimal from one hour on, whole minutes below.
pub open spec fn duration_text(seconds: Num) -> Seq<char> {
    let total = at_least_zero(seconds);
    if whole(3600).at_most(total) {
        tenths_text(total.over(whole(3600))) + "h"@
    } else {
        digits(rounded_part(total.over(whole(60)))) + "m"@
    }
}

/// A length reads back as the length: from one hour on as tenths of an hour, below
/// as minutes, in both to the nearest.
pub proof fn law_duration_read_back(seconds: Num)
    requires
        !seconds.nan,
        !seconds.neg,
        !seconds.is_infinite(),
    ensures
        ({
            let text = duration_text(seconds);
            if seconds.mag >= 3600 * one() {
                &&& ends_with(text, "h"@) && is_decimal(without_end(text, "h"@))
                &&& within(tenths_in(without_end(text, "h"@)), 3600 * one(), 10 * seconds.mag)
            } else {
                &&& ends_with(text, "m"@) && is_number(without_end(text, "m"@))
                &&& within(number_in(without_end(text, "m"@)), 60 * one(), seconds.mag)
            }
        }),
{
    lemma2_to64();
    lemma_pow2_strictly_increases(32, 53);
    lemma_pow2_pos(1074);
    lemma_whole_value(3600);
    law_at_least_zero(seconds);
    if seconds.mag >= 3600 * one() {
        law_share_tenths(seconds, 3600);
        lemma_end(tenths_text(seconds.over(whole(3600))), "h"@);
    } else {
        let m = rounded_part(seconds.over(whole(60)));
        law_share_rounded(seconds, 60);
        law_digits_read_back(m);
        lemma_end(digits(m), "m"@);
    }
}

/// A negative length, and one that is no number, is no length at all.
pub proof fn law_no_duration(seconds: Num)
    requires
        seconds.nan || seconds.value() <= 0,
    ensures
        duration_text(seconds) == "0m"@,
{
    lemma2_to64();
    lemma_pow2_strictly_increases(32, 53);
    lemma_pow2_pos(1074);
    lemma_pow2_pos(2098);
    lemma_pow2_strictly_increases(1074, 2098);
    lemma_whole_value(3600);
    lemma_whole_value(60);
    law_at_least_zero(seconds);
    let total = at_least_zero(seconds);
    crate::double::lemma_zero_nearest(0, 60 * one());
    let y = total.over(whole(60));
    assert(y.mag == 0);
    assert((2 * 0 + one()) / (2 * one()) == 0) by (nonlinear_arith)
        requires
            one() > 0,
    ;
    assert(rounded_part(y) == 0);
    reveal_strlit("0m");
    reveal_strlit("m");
    assert(digits(0) =~= seq!['0']);
    assert(digits(0) + "m"@ =~= "0m"@);
}

/// A length of whole seconds reads back to the nearest tenth of an hour, or minute.
pub proof fn law_whole_duration(n: nat)
    requires
        n < 0x1000_0000_0000,
    ensures
        ({
            let text = duration_text(whole(n));
            if n >= 3600 {
                &&& ends_with(text, "h"@) && is_decimal(without_end(text, "h"@))
                &&& 2 * apart((360 * tenths_in(without_end(text, "h"@))) as int, n as int) <= 360
            } else {
                &&& ends_with(text, "m"@) && is_number(without_end(text, "m"@))
                &&& 2 * apart((60 * number_in(without_end(text, "m"@))) as int, n as int) <= 60
            }
        }),
{
    lemma2_to64();
    vstd::arithmetic::power2::lemma_pow2_adds(32, 16);
    lemma_pow2_strictly_increases(48, 53);
    lemma_pow2_pos(1074);
    lemma_whole_value(n);
    law_duration_read_back(whole(n));
    let o = one();
    assert(n >= 3600 <==> n * o >= 3600 * o) by (nonlinear_arith)
        requires
            o > 0,
    ;
    let text = duration_text(whole(n));
    if n >= 3600 {
        assert(10 * (n * o) == (10 * n) * o) by (nonlinear_arith);
        lemma_within_exact(tenths_in(without_end(text, "h"@)), 3600, 10 * n, o);
    } else {
        lemma_within_exact(number_in(without_end(text, "m"@)), 60, n, o);
    }
}

/// A length in words: "1.5h", "12m".
pub fn format_duration(total_seconds: Double) -> (r: String)
    ensures
        r@ == duration_text(total_seconds@),
{
    let total = total_seconds.at_least_zero();
    if Double::from_u64(3600).at_most(total) {
        total.over(Double::from_u64(3600)).tenths_text().concat("h")
    } else {
        decimal(total.over(Double::from_u64(60)).rounded_part()).concat("m")
    }
}

/// How long a description has to be to be cut short.
pub const LONG_DESCRIPTION: usize = 240;

/// The author, and the narrator where one is known.
pub open spec fn credits(author: Seq<char>, narrator: Option<String>) -> Seq<char> {
    match narrator {
        Some(narrator) => if narrator@.len() > 0 {
            author + " · Narrated by "@ + narrator@
        } else {
            author
        },
        None => author,
    }
}

/// The line of the credits starts with the author; a narrator who is named stands
/// at its end, and without one the author is all.
pub proof fn law_credits(author: Seq<char>, narrator: Option<String>)
    ensures
        credits(author, narrator).len() >= author.len(),
        credits(author, narrator).take(author.len() as int) == author,
        narrator is None ==> credits(author, narrator) == author,
        narrator matches Some(n) ==> ends_with(credits(author, narrator), n@) || n@.len() == 0,
        narrator matches Some(n) ==> (n@.len() == 0 <==> credits(author, narrator) == author),
        narrator matches Some(n) ==> n@.len() > 0 ==> credits(author, narrator).len() == author.len()
            + " · Narrated by "@.len() + n@.len() && ends_with(credits(author, narrator), " · Narrated by "@ + n@),
{
    reveal_strlit(" · Narrated by ");
    assert(credits(author, narrator).take(author.len() as int) =~= author);
    if let Some(n) = narrator {
        if n@.len() > 0 {
            lemma_end(author + " · Narrated by "@, n@);
            assert(credits(author, narrator).len() > author.len());
            assert(credits(author, narrator) =~= author + (" · Narrated by "@ + n@));
            lemma_end(author, " · Narrated by "@ + n@);
        }
    }
}

/// A text that says something: none where it is absent or empty.
pub open spec fn stated(text: Option<String>) -> Option<Seq<char>> {
    match text {
        Some(text) => if text@.len() > 0 {
            Some(text@)
        } else {
            None
        },
        None => None,
    }
}

fn stated_text(text: &Option<String>) -> (r: Option<String>)
    ensures
        text_view(r) == stated(*text),
{
    match text {
        Some(text) => {
            if text.as_str().is_empty() {
                None
            } else {
                Some(text.clone())
            }
        },
        None => None,
    }
}

/// Where an item goes on: where it was left, unless it is finished or was never started.
pub open spec fn resume_position(progress: Option<Progress>) -> Num {
    match progress {
        Some(p) => if p.is_finished {
            whole(0)
        } else {
            p.current_time@
        },
        None => whole(0),
    }
}

/// A row of the list of chapters.
#[derive(Clone, Debug)]
pub struct DetailChapter {
    pub title: String,
    pub length: String,
    pub current: bool,
    pub downloaded: bool,
}

/// A row of the list of chapters.
pub struct DetailChapterView {
    pub title: Seq<char>,
    pub length: Seq<char>,
    pub current: bool,
    pub downloaded: bool,
}

impl View for DetailChapter {
    type V = DetailChapterView;

    open spec fn view(&self) -> DetailChapterView {
        DetailChapterView {
            title: self.title@,
            length: self.length@,
            current: self.current,
            downloaded: self.downloaded,
        }
    }
}

/// The row of a chapter.
pub open spec fn detail_chapter(chapter: ChapterInfo, position: Num, downloaded: bool) -> DetailChapterView {
    DetailChapterView {
        title: chapter.title@,
        length: duration_text(at_least_zero(chapter.end@.plus(chapter.start@.negated()))),
        current: holds_position(chapter, position),
        downloaded,
    }
}

/// The length of a chapter with whole seconds is the time from its start to its
/// end: chapters of the same length say the same, wherever they start, and that
/// reads back as the length; one that ends where it starts has none.
pub proof fn law_chapter_length(a: ChapterInfo, b: ChapterInfo, sa: nat, ea: nat, sb: nat, eb: nat, position: Num)
    requires
        a.start@ == whole(sa) && a.end@ == whole(ea),
        b.start@ == whole(sb) && b.end@ == whole(eb),
        sa <= ea < 0x1000_0000_0000,
        sb <= eb < 0x1000_0000_0000,
    ensures
        ({
            let n = (ea - sa) as nat;
            let text = detail_chapter(a, position, false).length;
            &&& ea - sa == eb - sb ==> text == detail_chapter(b, position, true).length
            &&& n == 0 ==> text == "0m"@
            &&& if n >= 3600 {
                &&& ends_with(text, "h"@) && is_decimal(without_end(text, "h"@))
                &&& 2 * apart((360 * tenths_in(without_end(text, "h"@))) as int, n as int) <= 360
            } else {
                &&& ends_with(text, "m"@) && is_number(without_end(text, "m"@))
                &&& 2 * apart((60 * number_in(without_end(text, "m"@))) as int, n as int) <= 60
            }
        }),
{
    lemma2_to64();
    vstd::arithmetic::power2::lemma_pow2_adds(32, 16);
    lemma_pow2_strictly_increases(48, 53);
    let n = (ea - sa) as nat;
    law_whole_minus(ea, sa);
    law_whole_minus(eb, sb);
    lemma_whole_value(n);
    lemma_whole_value((eb - sb) as nat);
    law_at_least_zero(whole(n));
    law_at_least_zero(whole((eb - sb) as nat));
    law_whole_duration(n);
    if n == 0 {
        assert(0 * one() == 0);
        law_no_duration(whole(0));
    }
}

/// A chapter that ends before it starts has no length.
pub proof fn law_chapter_backwards(chapter: ChapterInfo, position: Num)
    requires
        !chapter.start@.nan && !chapter.start@.is_infinite(),
        !chapter.end@.nan && !chapter.end@.is_infinite(),
        chapter.end@.value() <= chapter.start@.value(),
    ensures
        detail_chapter(chapter, position, false).length == "0m"@,
{
    let d = chapter.end@.plus(chapter.start@.negated());
    lemma_pow2_pos(2098);
    law_at_least_zero(d);
    law_no_duration(at_least_zero(d));
}

/// The row of a chapter has its title and its mark, and is current exactly if the
/// position is from its start on and before its end.
pub proof fn law_detail_chapter(chapter: ChapterInfo, position: Num, downloaded: bool)
    requires
        !chapter.start@.nan && !chapter.end@.nan && !position.nan,
    ensures
        ({
            let row = detail_chapter(chapter, position, downloaded);
            &&& row.title == chapter.title@
            &&& row.downloaded == downloaded
            &&& row.current <==> chapter.start@.value() <= position.value() < chapter.end@.value()
        }),
{
}

/// What is known of an item's series.
#[derive(Clone, Debug)]
pub struct SeriesInfo {
    pub series_name: String,
    pub sequence: Option<String>,
    pub total_books: u64,
}

/// The place of an item in its series, in words.
pub open spec fn series_text(info: SeriesInfo) -> Seq<char> {
    match info.sequence {
        Some(sequence) => info.series_name@ + ", "@ + sequence@ + "/"@ + digits(info.total_books as nat),
        None => info.series_name@ + " ("@ + digits(info.total_books as nat) + " books)"@,
    }
}

/// The place of an item in its series: "Name, 5/8", or "Name (8 books)".
pub fn series_label(info: &SeriesInfo) -> (r: String)
    ensures
        r@ == series_text(*info),
{
    let total = decimal(info.total_books);
    match &info.sequence {
        Some(sequence) => info.series_name.clone().concat(", ").concat(sequence.as_str()).concat("/").concat(
            total.as_str(),
        ),
        None => info.series_name.clone().concat(" (").concat(total.as_str()).concat(" books)"),
    }
}

/// Whether an item goes on from somewhere past its start.
pub open spec fn goes_on(progress: Option<Progress>) -> bool {
    whole(0).less(resume_position(progress))
}

/// Where the bar stands: none for an item that does not go on or has no length.
pub open spec fn bar_of(item: Option<Item>, progress: Option<Progress>) -> Option<Num> {
    match item {
        Some(item) => if goes_on(progress) && whole(0).less(item.duration@) {
            Some(fraction_of(resume_position(progress), item.duration@))
        } else {
            None
        },
        None => None,
    }
}

/// What the page shows.
#[derive(Clone, Debug)]
pub struct ItemDetailScreen {
    pub title: String,
    pub cover_path: Option<String>,
    /// The author and the narrator; hidden without an author.
    pub author: Option<String>,
    /// What the series button says; hidden without a series.
    pub series: Option<String>,
    /// The series that the button leads to.
    pub series_name: Option<String>,
    pub duration: String,
    pub play_label: String,
    /// Where the bar stands; hidden without progress.
    pub progress: Option<Double>,
    pub description: Option<String>,
    /// Whether the description can be shown in full.
    pub more_visible: bool,
    pub expanded: bool,
    pub chapters: Vec<DetailChapter>,
    pub chapters_visible: bool,
    /// Where the item goes on.
    pub position: Double,
    /// The chapter that the position is in.
    pub current_chapter: usize,
}

/// The page as local storage gives it: at once, before the server is asked for
/// anything. Without the item its id stands in for the title.
pub fn build(item_id: &String, item: &Option<Item>, progress: &Option<Progress>) -> (r: ItemDetailScreen)
    ensures
        r.title@ == match item {
            Some(item) => item.title@,
            None => item_id@,
        },
        text_view(r.cover_path) == match item {
            Some(item) => text_view(item.cover_path),
            None => None,
        },
        text_view(r.author) == match item {
            Some(item) => match item.author {
                Some(author) => Some(credits(author@, item.narrator)),
                None => None,
            },
            None => None,
        },
        text_view(r.series) == match item {
            Some(item) => stated(item.series_name),
            None => None,
        },
        text_view(r.series_name) == text_view(r.series),
        r.duration@ == match item {
            Some(item) => duration_text(item.duration@),
            None => ""@,
        },
        r.position@ == resume_position(*progress),
        r.play_label@ == if goes_on(*progress) {
            "Resume"@
        } else {
            "Play"@
        },
        rate_view(r.progress) == bar_of(*item, *progress),
        text_view(r.description) == match item {
            Some(item) => stated(item.description),
            None => None,
        },
        r.more_visible == (r.description matches Some(text) && text@.len() > LONG_DESCRIPTION),
        !r.expanded,
        r.chapters.len() == 0,
        !r.chapters_visible,
        r.current_chapter == 0,
{
    let zero = Double::from_u64(0);
    let position = match progress {
        Some(p) => if p.is_finished {
            zero
        } else {
            p.current_time
        },
        None => zero,
    };
    let resumes: bool = zero.less(position);
    let play_label = if resumes {
        String::from_str("Resume")
    } else {
        String::from_str("Play")
    };
    match item {
        Some(item) => {
            let author = match &item.author {
                Some(author) => {
                    let line = match &item.narrator {
                        Some(narrator) => {
                            if narrator.as_str().is_empty() {
                                author.clone()
                            } else {
                                author.clone().concat(" · Narrated by ").concat(narrator.as_str())
                            }
                        },
                        None => author.clone(),
                    };
                    Some(line)
                },
                None => None,
            };
            let description = stated_text(&item.description);
            let more_visible: bool = match &description {
                Some(text) => text.as_str().unicode_len() > LONG_DESCRIPTION,
                None => false,
            };
            let bar = if resumes && zero.less(item.duration) {
                Some(fraction(position, item.duration))
            } else {
                None
            };
            ItemDetailScreen {
                title: item.title.clone(),
                cover_path: copy_text(&item.cover_path),
                author,
                series: stated_text(&item.series_name),
                series_name: stated_text(&item.series_name),
                duration: format_duration(item.duration),
                play_label,
                progress: bar,
                description,
                more_visible,
                expanded: false,
                chapters: Vec::new(),
                chapters_visible: false,
                position,
                current_chapter: 0,
            }
        },
        None => ItemDetailScreen {
            title: item_id.clone(),
            cover_path: None,
            author: None,
            series: None,
            series_name: None,
            duration: String::from_str(""),
            play_label,
            progress: None,
            description: None,
            more_visible: false,
            expanded: false,
            chapters: Vec::new(),
            chapters_visible: false,
            position,
            current_chapter: 0,
        },
    }
}

/// Whether `i` is the place of the first chapter that a position is in; zero
/// where it is in none.
pub open spec fn current_place(chapters: Seq<ChapterInfo>, position: Num, i: int) -> bool {
    ||| 0 <= i < chapters.len() && holds_position(chapters[i], position) && forall|k: int|
        0 <= k < i ==> !holds_position(#[trigger] chapters[k], position)
    ||| i == 0 && forall|k: int| 0 <= k < chapters.len() ==> !holds_position(#[trigger] chapters[k], position)
}

/// The current chapter is one that the position is in, if there is one, and no
/// earlier chapter has the position; it is the same whenever it is looked for.
pub proof fn law_current_place(chapters: Seq<ChapterInfo>, position: Num, i: int, j: int)
    requires
        current_place(chapters, position, i),
        current_place(chapters, position, j),
    ensures
        i == j,
        (exists|k: int| 0 <= k < chapters.len() && holds_position(#[trigger] chapters[k], position)) ==> 0 <= i
            < chapters.len() && chapters[i].start@.at_most(position) && position.less(chapters[i].end@),
        forall|k: int| 0 <= k < i ==> !holds_position(#[trigger] chapters[k], position),
{
}

/// The chapter that a position is in; the first where it is in none.
pub fn current_chapter_index(chapters: &Vec<ChapterInfo>, position: Double) -> (r: usize)
    ensures
        current_place(chapters@, position@, r as int),
{
    let mut i: usize = 0;
    while i < chapters.len()
        invariant
            i <= chapters.len(),
            forall|k: int| 0 <= k < i ==> !holds_position(#[trigger] chapters[k], position@),
        decreases chapters.len() - i,
    {
        if is_current(&chapters[i], position) {
            return i;
        }
        i = i + 1;
    }
    0
}

/// The chapters to show: those of the server, or else those stored, or else none.
pub fn chapters_or_stored(
    resolved: Option<Vec<ChapterInfo>>,
    stored: Option<Vec<ChapterInfo>>,
) -> (r: Vec<ChapterInfo>)
    ensures
        match (resolved, stored) {
            (Some(chapters), _) => r == chapters,
            (None, Some(chapters)) => r == chapters,
            (None, None) => r.len() == 0,
        },
{
    match resolved {
        Some(chapters) => chapters,
        None => match stored {
            Some(chapters) => chapters,
            None => Vec::new(),
        },
    }
}

impl ItemDetailScreen {
    /// Whether the series is worth asking the server about.
    pub fn wants_series(&self) -> (r: bool)
        ensures
            r == (self.series is Some),
    {
        self.series.is_some()
    }

    /// The server has been asked about the series. What cannot be told leaves
    /// the plain name; where the button leads does not change.
    pub fn series_resolved(self, synced: bool, info: &Option<SeriesInfo>) -> (r: ItemDetailScreen)
        ensures
            r == (ItemDetailScreen { series: r.series, ..self }),
            match info {
                Some(info) => if synced && self.series is Some {
                    text_view(r.series) == Some(series_text(*info))
                } else {
                    r.series == self.series
                },
                None => r.series == self.series,
            },
    {
        match info {
            Some(info) => {
                if synced && self.series.is_some() {
                    ItemDetailScreen { series: Some(series_label(info)), ..self }
                } else {
                    self
                }
            },
            None => self,
        }
    }

    /// The chapters have been resolved, with the marks of those downloaded.
    pub fn chapters_resolved(self, chapters: &Vec<ChapterInfo>, markers: &Vec<bool>) -> (r: ItemDetailScreen)
        ensures
            r == (ItemDetailScreen {
                chapters: r.chapters,
                chapters_visible: chapters.len() > 0,
                current_chapter: r.current_chapter,
                ..self
            }),
            r.chapters.len() == chapters.len(),
            forall|i: int|
                0 <= i < chapters.len() ==> (#[trigger] r.chapters[i])@ == detail_chapter(
                    chapters[i],
                    self.position@,
                    marked(markers@, i),
                ),
            current_place(chapters@, self.position@, r.current_chapter as int),
    {
        let mut rows: Vec<DetailChapter> = Vec::new();
        let mut n: usize = 0;
        while n < chapters.len()
            invariant
                n <= chapters.len(),
                rows.len() == n,
                forall|i: int|
                    0 <= i < n ==> (#[trigger] rows[i])@ == detail_chapter(
                        chapters[i],
                        self.position@,
                        marked(markers@, i),
                    ),
            decreases chapters.len() - n,
        {
            let chapter = &chapters[n];
            rows.push(
                DetailChapter {
                    title: chapter.title.clone(),
                    length: format_duration(chapter.end.minus(chapter.start).at_least_zero()),
                    current: is_current(chapter, self.position),
                    downloaded: n < markers.len() && markers[n],
                },
            );
            n = n + 1;
        }
        let current_chapter: usize = current_chapter_index(chapters, self.position);
        ItemDetailScreen { chapters: rows, chapters_visible: chapters.len() > 0, current_chapter, ..self }
    }

    /// "more" and "less".
    pub fn more_pressed(self) -> (r: ItemDetailScreen)
        ensures
            r == (ItemDetailScreen { expanded: !self.expanded, ..self }),
    {
        ItemDetailScreen { expanded: !self.expanded, ..self }
    }

    /// What the button below the description says.
    pub fn more_label(&self) -> (r: String)
        ensures
            r@ == if self.expanded {
                "less"@
            } else {
                "more"@
            },
    {
        if self.expanded {
            String::from_str("less")
        } else {
            String::from_str("more")
        }
    }

    /// How many lines of the description show; all of them for a negative number.
    pub fn description_lines(&self) -> (r: i32)
        ensures
            r == if self.expanded {
                -1int
            } else {
                3
            },
    {
        if self.expanded {
            -1
        } else {
            3
        }
    }
}

/// An item that is not finished goes on where it was left.
pub proof fn law_resumes_where_left(progress: Progress)
    requires
        !progress.is_finished,
    ensures
        resume_position(Some(progress)) == progress.current_time@,
{
}

/// The place in a series starts with the name of the series; with a number in the
/// series it ends with that number of all its books, without one it says how many
/// books there are.
pub proof fn law_series_text(info: SeriesInfo)
    ensures
        ({
            let text = series_text(info);
            let all = digits(info.total_books as nat);
            &&& text.take(info.series_name@.len() as int) == info.series_name@
            &&& is_number(all) && number_in(all) == info.total_books
            &&& info.sequence matches Some(n) ==> ends_with(text, n@ + "/"@ + all) && text.len()
                == info.series_name@.len() + 2 + (n@ + "/"@ + all).len()
            &&& info.sequence is None ==> ends_with(text, all + " books)"@) && text.len() == info.series_name@.len() + 2
                + (all + " books)"@).len()
        }),
{
    let text = series_text(info);
    let (name, all) = (info.series_name@, digits(info.total_books as nat));
    law_digits_read_back(info.total_books as nat);
    reveal_strlit(", ");
    reveal_strlit(" (");
    assert(text.take(name.len() as int) =~= name);
    match info.sequence {
        Some(n) => {
            assert(text =~= (name + ", "@) + (n@ + "/"@ + all));
            lemma_end(name + ", "@, n@ + "/"@ + all);
        },
        None => {
            assert(text =~= (name + " ("@) + (all + " books)"@));
            lemma_end(name + " ("@, all + " books)"@);
        },
    }
}

/// A finished item is played from the start, as one that was never started.
pub proof fn law_finished_plays_afresh(progress: Progress)
    requires
        progress.is_finished,
    ensures
        resume_position(Some(progress)) == resume_position(None),
        !whole(0).less(resume_position(Some(progress))),
{
}

/// A text that is there and not empty says what it says; another says nothing.
pub proof fn law_stated(text: String)
    ensures
        stated(None) is None,
        stated(Some(text)) is None <==> text@ == Seq::<char>::empty(),
        stated(Some(text)) matches Some(said) ==> said == text@,
{
    assert(text@.len() == 0 ==> text@ =~= Seq::<char>::empty());
}

/// An item goes on exactly where it was left at a time past its start and is not
/// finished; only then, and where it has a length, the bar shows how far along it is.
pub proof fn law_goes_on(progress: Progress, item: Item)
    requires
        !progress.current_time@.nan,
        !item.duration@.nan,
    ensures
        !goes_on(None),
        goes_on(Some(progress)) <==> !progress.is_finished && progress.current_time@.value() > 0,
        bar_of(None, Some(progress)) is None,
        bar_of(Some(item), Some(progress)) is Some <==> goes_on(Some(progress)) && item.duration@.value() > 0,
        bar_of(Some(item), Some(progress)) matches Some(at) ==> at == fraction_of(
            progress.current_time@,
            item.duration@,
        ),
{
    lemma_pow2_pos(53);
    lemma_whole_value(0);
}

/// From the rounding of a difference to the difference itself.
proof fn lemma_length_bound(x: int, step: int, d: int, v: int)
    requires
        0x1_0000_0000_0000 * (2 * apart(x, d) - step) <= step + d,
        0x20_0000_0000_0000 * apart(d, v) <= v + 0xa0_0000_0000_0000,
        v >= 0,
        step >= 0x1_0000_0000_0000_0000,
    ensures
        0x8000_0000_0000 * (2 * apart(x, v) - step) <= step + v,
{
    assert(apart(x, v) <= apart(x, d) + apart(d, v));
}

/// The length of a chapter is the time from its start to its end, wherever these are:
/// it reads back as that, as tenths of an hour or as minutes, to the nearest.
#[verifier::spinoff_prover]
pub proof fn law_chapter_time(chapter: ChapterInfo, position: Num, downloaded: bool)
    requires
        !chapter.start@.nan && !chapter.start@.is_infinite(),
        !chapter.end@.nan && !chapter.end@.is_infinite(),
        0 < chapter.end@.value() - chapter.start@.value() < 0x1000_0000_0000_0000 * one(),
    ensures
        ({
            let text = detail_chapter(chapter, position, downloaded).length;
            let v = chapter.end@.value() - chapter.start@.value();
            let (hours, minutes) = (tenths_in(without_end(text, "h"@)), number_in(without_end(text, "m"@)));
            ||| {
                &&& v + one() >= 3600 * one()
                &&& ends_with(text, "h"@) && is_decimal(without_end(text, "h"@))
                &&& 0x8000_0000_0000 * (2 * apart((hours * (3600 * one())) as int, 10 * v) - 3600 * one()) <= 3600 * one()
                    + 10 * v
            }
            ||| {
                &&& v < 3601 * one()
                &&& ends_with(text, "m"@) && is_number(without_end(text, "m"@))
                &&& 0x8000_0000_0000 * (2 * apart((minutes * (60 * one())) as int, v) - 60 * one()) <= 60 * one() + v
            }
        }),
{
    lemma2_to64();
    vstd::arithmetic::power2::lemma_pow2_adds(32, 16);
    lemma_pow2_pos(1074);
    lemma_pow2_strictly_increases(64, 1074);
    let d = chapter.end@.plus(chapter.start@.negated());
    let v = chapter.end@.value() - chapter.start@.value();
    law_minus(chapter.end@, chapter.start@);
    law_at_least_zero(d);
    law_duration_read_back(d);
    let text = duration_text(d);
    assert(detail_chapter(chapter, position, downloaded).length == text);
    let (hours, minutes) = (tenths_in(without_end(text, "h"@)), number_in(without_end(text, "m"@)));
    if d.mag >= 3600 * one() {
        lemma_length_bound((hours * (3600 * one())) as int, 3600 * one() as int, 10 * d.mag as int, 10 * v);
    } else {
        lemma_length_bound((minutes * (60 * one())) as int, 60 * one() as int, d.mag as int, v);
    }
}

/// A length without an end says so.
pub proof fn law_endless(seconds: Num)
    requires
        seconds.is_infinite(),
        !seconds.neg,
    ensures
        duration_text(seconds) == "infh"@,
{
    lemma2_to64();
    lemma_pow2_strictly_increases(32, 53);
    lemma_pow2_pos(1074);
    lemma_pow2_pos(2098);
    lemma_whole_value(3600);
    reveal_strlit("");
    reveal_strlit("inf");
    reveal_strlit("h");
    reveal_strlit("infh");
    assert(duration_text(seconds) =~= "infh"@);
}

} // verus!
