//! The full player: transport, chapters, speed and sleep timer.
use crate::double::{
    absolute, at_least_zero, clamped, epsilon, law_at_least_zero, law_minus, law_over, law_plus, law_plus_ordered,
    law_whole_minus, law_whole_part, law_whole_part_ends, lemma_whole_value, nearly_whole, one, tenths_text, whole,
    whole_part, Double, Num,
};
use crate::downloads::ItemDownloadState;
use crate::reading::{
    fields, is_clock, is_decimal, law_digits_read_back, law_tenths_read_back, law_two_digits_read_back,
    lemma_last_field, lemma_no_mark, lemma_one_field, seconds_in, tenths_in,
};
use crate::rounding::apart;
use crate::sync::{copy_text, text_view};
use crate::text::{decimal, digits, padded, two_digits};
use vstd::arithmetic::power2::{lemma_pow2_adds, lemma_pow2_pos, lemma_pow2_strictly_increases, lemma_pow2_unfold, pow2};
use vstd::prelude::*;

verus! {

/// Whole seconds as "1:02:03", or "2:03" under an hour.
pub open spec fn hms_text(total: nat) -> Seq<char> {
    let hours = total / 3600;
    let minutes = (total % 3600) / 60;
    let seconds = total % 60;
    if hours > 0 {
        digits(hours) + ":"@ + two_digits(minutes) + ":"@ + two_digits(seconds)
    } else {
        digits(minutes) + ":"@ + two_digits(seconds)
    }
}

/// The text of whole seconds reads back as the time: hours, minutes and seconds,
/// the last two below sixty, the hours only where there are any.
pub proof fn law_hms_read_back(total: nat)
    ensures
        is_clock(hms_text(total)),
        seconds_in(hms_text(total)) == total,
        fields(hms_text(total), ':').len() == 3 <==> total >= 3600,
{
    let (h, m, s) = (total / 3600, (total % 3600) / 60, total % 60);
    reveal_strlit(":");
    assert(":"@ =~= seq![':']);
    law_digits_read_back(h);
    law_digits_read_back(m);
    law_two_digits_read_back(m);
    law_two_digits_read_back(s);
    lemma_no_mark(digits(h), ':');
    lemma_no_mark(digits(m), ':');
    lemma_no_mark(two_digits(m), ':');
    lemma_no_mark(two_digits(s), ':');
    if h > 0 {
        lemma_one_field(digits(h), ':');
        lemma_last_field(digits(h), ':', two_digits(m));
        lemma_last_field(digits(h) + seq![':'] + two_digits(m), ':', two_digits(s));
        let f = fields(hms_text(total), ':');
        assert(f =~= seq![digits(h), two_digits(m), two_digits(s)]);
    } else {
        lemma_one_field(digits(m), ':');
        lemma_last_field(digits(m), ':', two_digits(s));
        let f = fields(hms_text(total), ':');
        assert(f =~= seq![digits(m), two_digits(s)]);
    }
}

/// Different whole seconds have different texts.
pub proof fn law_hms_differ(a: nat, b: nat)
    ensures
        hms_text(a) == hms_text(b) ==> a == b,
{
    law_hms_read_back(a);
    law_hms_read_back(b);
}

/// The text of a number of seconds.
pub open spec fn time_text(seconds: Num) -> Seq<char> {
    hms_text(whole_part(at_least_zero(seconds)))
}

/// The text of a number of seconds reads back as the whole seconds in it; what is
/// below zero, and what is no number, as zero.
pub proof fn law_time_read_back(seconds: Num)
    ensures
        is_clock(time_text(seconds)),
        !seconds.nan && 0 <= seconds.value() < 0x1_0000_0000_0000_0000 * one() ==> {
            let t = seconds_in(time_text(seconds));
            t * one() <= seconds.value() < (t + 1) * one()
        },
        seconds.nan || seconds.value() < 0 ==> seconds_in(time_text(seconds)) == 0,
        !seconds.nan && seconds.value() >= 0x1_0000_0000_0000_0000 * one() ==> seconds_in(time_text(seconds)) == u64::MAX,
{
    let x = at_least_zero(seconds);
    law_hms_read_back(whole_part(x));
    law_at_least_zero(seconds);
    law_whole_part_ends(x);
    lemma_pow2_pos(1074);
    if !seconds.nan && 0 <= seconds.value() < 0x1_0000_0000_0000_0000 * one() {
        if x.neg {
            assert(x.mag == 0);
            assert(0 * one() == 0 && 1 * one() == one());
        } else {
            law_whole_part(x);
        }
    }
    if seconds.nan || seconds.value() < 0 {
        if !x.neg {
            assert(0 < 0x1_0000_0000_0000_0000 * one()) by (nonlinear_arith)
                requires
                    one() > 0,
            ;
            law_whole_part(x);
            let w = whole_part(x);
            assert(w == 0) by (nonlinear_arith)
                requires
                    w * one() <= 0,
                    one() > 0,
            ;
        }
    }
}

/// Seconds as "1:02:03", or "2:03" under an hour; what is below zero is zero,
/// fractions are cut off.
pub fn format_hms(total_seconds: Double) -> (r: String)
    ensures
        r@ == time_text(total_seconds@),
{
    let total: u64 = total_seconds.at_least_zero().whole_part();
    let hours: u64 = total / 3600;
    let minutes: u64 = (total % 3600) / 60;
    let seconds = padded(total % 60);
    if hours > 0 {
        let middle = padded(minutes);
        decimal(hours).concat(":").concat(middle.as_str()).concat(":").concat(seconds.as_str())
    } else {
        decimal(minutes).concat(":").concat(seconds.as_str())
    }
}

/// The text of a playback speed.
pub open spec fn speed_text(speed: Num, shortest: Seq<char>) -> Seq<char> {
    if nearly_whole(speed) {
        tenths_text(speed) + "×"@
    } else {
        shortest + "×"@
    }
}

/// A whole speed is written with one decimal, which reads back as the speed.
pub proof fn law_whole_speed(n: nat, shortest: Seq<char>)
    requires
        n < pow2(53),
    ensures
        ({
            let text = speed_text(whole(n), shortest);
            &&& text.len() > 0 && text.last() == '×'
            &&& is_decimal(text.drop_last()) && tenths_in(text.drop_last()) == 10 * n
        }),
{
    lemma_whole_value(n);
    lemma_pow2_pos(1074);
    lemma_pow2_pos(1022);
    law_tenths_read_back(whole(n));
    vstd::arithmetic::div_mod::lemma_mod_multiples_basic(n as int, one() as int);
    reveal_strlit("×");
    let t = tenths_in(tenths_text(whole(n)));
    let o = one() as int;
    let (a, b) = (t as int, (10 * n) as int);
    assert(10 * (n * one()) == b * o) by (nonlinear_arith)
        requires
            b == 10 * n,
            o == one(),
    ;
    if a != b {
        assert(false) by (nonlinear_arith)
            requires
                2 * apart(a * o, b * o) <= o,
                a <= b - 1 || a >= b + 1,
                o > 0,
        ;
    }
    assert(speed_text(whole(n), shortest).drop_last() =~= tenths_text(whole(n)));
}

/// A speed that is above its whole part by the epsilon or more is written as it is.
pub proof fn law_other_speed(speed: Num, shortest: Seq<char>)
    requires
        !speed.nan,
        forall|w: nat| speed.mag < #[trigger] (w * one()) || speed.mag >= w * one() + pow2(1022),
    ensures
        speed_text(speed, shortest) == shortest + "×"@,
{
    if nearly_whole(speed) {
        crate::double::law_nearly_whole(speed);
        let w = choose|w: nat| #[trigger] (w * one()) <= speed.mag < w * one() + pow2(1022);
        assert(speed.mag < w * one() || speed.mag >= w * one() + pow2(1022));
    }
}

/// A playback speed: one that is whole with one decimal, any other as it is.
/// `shortest` is the shortest decimal text that stands for the speed.
pub fn format_speed(speed: Double, shortest: &str) -> (r: String)
    ensures
        r@ == speed_text(speed@, shortest@),
{
    if speed.nearly_whole() {
        speed.tenths_text().concat("×")
    } else {
        String::from_str(shortest).concat("×")
    }
}

/// A chapter of the item that is loaded.
#[derive(Clone, Debug)]
pub struct ChapterInfo {
    pub title: String,
    pub start: Double,
    pub end: Double,
}

/// Whether a position is in a chapter: its start belongs to it, its end does not.
pub open spec fn holds_position(chapter: ChapterInfo, position: Num) -> bool {
    chapter.start@.at_most(position) && position.less(chapter.end@)
}

/// Whether a position is in a chapter.
pub fn is_current(chapter: &ChapterInfo, position: Double) -> (r: bool)
    ensures
        r == holds_position(*chapter, position@),
{
    chapter.start.at_most(position) && position.less(chapter.end)
}

/// A position is in one chapter at most where each chapter ends before the next
/// starts; the start of a chapter that has a length is in it, its end is not.
pub proof fn law_one_current_chapter(chapters: Seq<ChapterInfo>, position: Num, i: int, j: int)
    requires
        0 <= i < j < chapters.len(),
        chapters[i].end@.at_most(chapters[j].start@),
    ensures
        !(holds_position(chapters[i], position) && holds_position(chapters[j], position)),
        chapters[i].start@.less(chapters[i].end@) ==> holds_position(chapters[i], chapters[i].start@),
        !holds_position(chapters[i], chapters[i].end@),
{
}

/// Where one chapter ends as the next starts, a position between the start of the
/// first and the end of the second is in one of them.
pub proof fn law_chapters_meet(first: ChapterInfo, second: ChapterInfo, position: Num)
    requires
        first.end@ == second.start@,
        !first.end@.nan,
        first.start@.at_most(position),
        position.less(second.end@),
    ensures
        holds_position(first, position) || holds_position(second, position),
{
}

/// A row of the chapters sheet.
#[derive(Clone, Debug)]
pub struct ChapterRow {
    pub title: String,
    pub time: String,
    pub downloaded: bool,
    pub current: bool,
}

/// A row of the chapters sheet.
pub struct ChapterRowView {
    pub title: Seq<char>,
    pub time: Seq<char>,
    pub downloaded: bool,
    pub current: bool,
}

impl View for ChapterRow {
    type V = ChapterRowView;

    open spec fn view(&self) -> ChapterRowView {
        ChapterRowView {
            title: self.title@,
            time: self.time@,
            downloaded: self.downloaded,
            current: self.current,
        }
    }
}

/// The row of a chapter.
pub open spec fn chapter_row(chapter: ChapterInfo, position: Num, downloaded: bool) -> ChapterRowView {
    ChapterRowView {
        title: chapter.title@,
        time: time_text(chapter.start@),
        downloaded,
        current: holds_position(chapter, position),
    }
}

/// The row of a chapter has its title and mark, says the second it starts at, and
/// is current exactly if the position is from its start on and before its end.
pub proof fn law_chapter_row(chapter: ChapterInfo, position: Num, downloaded: bool)
    requires
        !chapter.start@.nan && !chapter.end@.nan && !position.nan,
        0 <= chapter.start@.value() < 0x1_0000_0000_0000_0000 * one(),
    ensures
        ({
            let row = chapter_row(chapter, position, downloaded);
            let t = seconds_in(row.time);
            &&& row.title == chapter.title@
            &&& row.downloaded == downloaded
            &&& row.current <==> chapter.start@.value() <= position.value() < chapter.end@.value()
            &&& is_clock(row.time)
            &&& t * one() <= chapter.start@.value() < (t + 1) * one()
        }),
{
    law_time_read_back(chapter.start@);
}

/// The row of a chapter: its title, the time it starts at, whether it is
/// downloaded, and whether the position is in it.
pub fn build_chapter_row(chapter: &ChapterInfo, position: Double, is_downloaded: bool) -> (r: ChapterRow)
    ensures
        r@ == chapter_row(*chapter, position@, is_downloaded),
{
    ChapterRow {
        title: chapter.title.clone(),
        time: format_hms(chapter.start),
        downloaded: is_downloaded,
        current: is_current(chapter, position),
    }
}

/// Whether a chapter is marked as downloaded; without a mark it is not.
pub open spec fn marked(markers: Seq<bool>, index: int) -> bool {
    index < markers.len() && markers[index]
}

/// The rows of the chapters sheet.
pub fn rebuild_chapters_list(chapters: &Vec<ChapterInfo>, position: Double, markers: &Vec<bool>) -> (r: Vec<
    ChapterRow,
>)
    ensures
        r.len() == chapters.len(),
        forall|i: int|
            0 <= i < r.len() ==> (#[trigger] r[i])@ == chapter_row(chapters[i], position@, marked(markers@, i)),
{
    let mut rows: Vec<ChapterRow> = Vec::new();
    let mut n: usize = 0;
    while n < chapters.len()
        invariant
            n <= chapters.len(),
            rows.len() == n,
            forall|i: int|
                0 <= i < n ==> (#[trigger] rows[i])@ == chapter_row(chapters[i], position@, marked(markers@, i)),
        decreases chapters.len() - n,
    {
        let downloaded: bool = n < markers.len() && markers[n];
        rows.push(build_chapter_row(&chapters[n], position, downloaded));
        n = n + 1;
    }
    rows
}

/// Where a tap on a row of the chapters sheet seeks to.
pub fn chapter_start(chapters: &Vec<ChapterInfo>, index: usize) -> (r: Option<Double>)
    ensures
        r == if index < chapters.len() {
            Some(chapters[index as int].start)
        } else {
            None
        },
{
    if index < chapters.len() {
        Some(chapters[index].start)
    } else {
        None
    }
}

/// Whether a preset is a step up from a speed, or a step down.
pub open spec fn is_step(preset: Num, current: Num, up: bool) -> bool {
    if up {
        current.plus(epsilon()).less(preset)
    } else {
        preset.less(current.plus(epsilon().negated()))
    }
}

fn steps(preset: Double, current: Double, up: bool) -> (r: bool)
    ensures
        r == is_step(preset@, current@, up),
{
    if up {
        current.plus(Double::epsilon()).less(preset)
    } else {
        preset.less(current.minus(Double::epsilon()))
    }
}

/// Whether a speed is the preset that a step up or down goes to: the first in
/// the list above the current speed, or the last in the list below it; none at
/// the end of the list.
pub open spec fn steps_to(presets: Seq<Double>, current: Num, up: bool, target: Option<Double>) -> bool {
    match target {
        Some(speed) => exists|i: int|
            0 <= i < presets.len() && speed == presets[i] && is_step(presets[i]@, current, up) && forall|k: int|
                0 <= k < presets.len() && (if up {
                    k < i
                } else {
                    i < k
                }) ==> !is_step((#[trigger] presets[k])@, current, up),
        None => forall|k: int| 0 <= k < presets.len() ==> !is_step((#[trigger] presets[k])@, current, up),
    }
}

/// The preset that a step up or down goes to from the speed that plays; with
/// nothing loaded, from normal speed.
pub fn step_speed_from(presets: &Vec<Double>, playing: Option<Double>, up: bool) -> (r: Option<Double>)
    ensures
        steps_to(
            presets@,
            match playing {
                Some(speed) => speed@,
                None => whole(1),
            },
            up,
            r,
        ),
{
    let current = match playing {
        Some(speed) => speed,
        None => Double::from_u64(1),
    };
    step_speed(presets, current, up)
}

/// The preset that a step up or down goes to.
pub fn step_speed(presets: &Vec<Double>, current: Double, up: bool) -> (r: Option<Double>)
    ensures
        steps_to(presets@, current@, up, r),
{
    if up {
        let mut i: usize = 0;
        while i < presets.len()
            invariant
                i <= presets.len(),
                up,
                forall|k: int| 0 <= k < i ==> !is_step((#[trigger] presets[k])@, current@, up),
            decreases presets.len() - i,
        {
            if steps(presets[i], current, up) {
                return Some(presets[i]);
            }
            i = i + 1;
        }
        None
    } else {
        let mut i: usize = presets.len();
        while i > 0
            invariant
                i <= presets.len(),
                !up,
                forall|k: int| i <= k < presets.len() ==> !is_step((#[trigger] presets[k])@, current@, up),
            decreases i,
        {
            i = i - 1;
            if steps(presets[i], current, up) {
                return Some(presets[i]);
            }
        }
        None
    }
}

/// Whether the presets rise: each is a step up from those before it and a step
/// down from those after it, and none is a step from itself.
pub open spec fn rising(presets: Seq<Double>) -> bool {
    forall|i: int, j: int|
        0 <= i < presets.len() && 0 <= j < presets.len() ==> {
            &&& is_step((#[trigger] presets[j])@, (#[trigger] presets[i])@, true) == (i < j)
            &&& is_step(presets[j]@, presets[i]@, false) == (j < i)
        }
}

/// Among rising presets a step up goes to the next one, a step down to the one
/// before, so that each undoes the other; at either end of the list nothing happens.
pub proof fn law_speed_steps(presets: Seq<Double>, i: int, up: Option<Double>, down: Option<Double>)
    requires
        rising(presets),
        0 <= i < presets.len(),
        steps_to(presets, presets[i]@, true, up),
        steps_to(presets, presets[i]@, false, down),
    ensures
        up == if i + 1 < presets.len() {
            Some(presets[i + 1])
        } else {
            None
        },
        down == if i > 0 {
            Some(presets[i - 1])
        } else {
            None
        },
{
    if i + 1 < presets.len() {
        assert(is_step(presets[i + 1]@, presets[i]@, true));
    }
    if i > 0 {
        assert(is_step(presets[i - 1]@, presets[i]@, false));
    }
}

/// A step up goes to a faster speed, a step down to a slower one; and any preset
/// that is faster or slower by a thousandth is a step.
pub proof fn law_step_changes_speed(preset: Double, current: Double)
    requires
        !preset@.nan,
        !current@.nan,
        !current@.is_infinite(),
    ensures
        is_step(preset@, current@, true) ==> current@.value() < preset@.value(),
        is_step(preset@, current@, false) ==> preset@.value() < current@.value(),
        current@.mag <= 1024 * one() && 1000 * (preset@.value() - current@.value()) >= one() ==> is_step(
            preset@,
            current@,
            true,
        ),
        current@.mag <= 1024 * one() && 1000 * (current@.value() - preset@.value()) >= one() ==> is_step(
            preset@,
            current@,
            false,
        ),
{
    lemma_pow2_pos(1022);
    lemma_pow2_strictly_increases(1022, 2098);
    law_plus_ordered(current, epsilon());
    law_plus(current@, epsilon());
    law_plus(current@, epsilon().negated());
    let (c, e, o) = (current@.value(), pow2(1022) as int, one() as int);
    lemma_pow2_adds(52, 1022);
    lemma_pow2_adds(1024, 1074);
    lemma_pow2_unfold(53);
    lemma_pow2_pos(52);
    lemma_pow2_pos(1074);
    vstd::arithmetic::power2::lemma2_to64();
    lemma_pow2_adds(32, 20);
    lemma_pow2_strictly_increases(64, 1024);
    lemma_pow2_strictly_increases(52, 1022);
    if current@.mag <= 1024 * one() {
        let (up, low) = (current@.plus(epsilon()), current@.plus(epsilon().negated()));
        let m = pow2(53) as int;
        lemma_sum_finite(current@, epsilon());
        lemma_sum_finite(current@, epsilon().negated());
        assert(1000 * (up.value() - c) < o) by (nonlinear_arith)
            requires
                m * (up.value() - c - e) <= 1024 * o + e + e,
                o == 0x10_0000_0000_0000 * e,
                m == 0x20_0000_0000_0000,
                e > 0,
        ;
        assert(1000 * (c - low.value()) < o) by (nonlinear_arith)
            requires
                m * (c - e - low.value()) <= 1024 * o + e + e,
                o == 0x10_0000_0000_0000 * e,
                m == 0x20_0000_0000_0000,
                e > 0,
        ;
    }
}

/// The sum of numbers far from the limit is finite.
proof fn lemma_sum_finite(x: Num, y: Num)
    requires
        !x.nan,
        !y.nan,
        x.mag <= 1024 * one(),
        y.mag <= one(),
        !x.is_infinite(),
        !y.is_infinite(),
    ensures
        !x.plus(y).is_infinite(),
{
    let size = apart(x.value() + y.value(), 0) as nat;
    lemma_pow2_pos(1074);
    lemma_pow2_adds(11, 1074);
    lemma_pow2_strictly_increases(1085, 2098);
    vstd::arithmetic::power2::lemma2_to64();
    lemma_pow2_strictly_increases(0, 53);
    crate::rounding::lemma_nearest_representable(1, 1085);
    assert(1 * pow2(1085) == pow2(1085));
    crate::rounding::law_nearest_ordered(size, pow2(1085), 1);
}

/// Whether going back to the normal speed changes anything.
pub open spec fn reset_needed(speed: Option<Double>) -> bool {
    match speed {
        Some(speed) => epsilon().less(absolute(speed@.plus(whole(1).negated()))),
        None => false,
    }
}

/// Going back to the normal speed changes nothing at the normal speed, and does
/// where the speed is off it by a thousandth; with nothing loaded there is nothing
/// to change.
pub proof fn law_reset_needed(speed: Double)
    requires
        !speed@.nan,
    ensures
        !reset_needed(None),
        speed@ == whole(1) ==> !reset_needed(Some(speed)),
        speed@.mag <= 1024 * one() && 1000 * apart(speed@.value(), one() as int) >= one() ==> reset_needed(Some(speed)),
{
    lemma_pow2_pos(1022);
    lemma_pow2_pos(1074);
    lemma_pow2_pos(2098);
    vstd::arithmetic::power2::lemma2_to64();
    lemma_pow2_strictly_increases(1, 53);
    lemma_whole_value(1);
    assert(1 * one() == one());
    let d = speed@.plus(whole(1).negated());
    if speed@.mag <= 1024 * one() && 1000 * apart(speed@.value(), one() as int) >= one() {
        lemma_pow2_adds(52, 1022);
        lemma_pow2_adds(11, 1074);
        lemma_pow2_strictly_increases(1085, 2098);
        lemma_pow2_strictly_increases(1022, 2098);
        lemma_pow2_strictly_increases(52, 1022);
        lemma_pow2_adds(32, 20);
        lemma_pow2_unfold(53);
        law_plus(speed@, whole(1).negated());
        lemma_sum_finite(speed@, whole(1).negated());
        let (s, o, e, m) = (speed@.value() - one(), one() as int, pow2(1022) as int, pow2(53) as int);
        let size = apart(s, 0);
        let got = apart(d.value(), 0);
        let gap = apart(d.value(), s);
        assert(m * (size - got) <= m * gap) by (nonlinear_arith)
            requires
                size - got <= gap,
                m > 0,
        ;
        assert(got > e) by (nonlinear_arith)
            requires
                m * (size - got) <= size + e,
                1000 * size >= o,
                o == 0x10_0000_0000_0000 * e,
                m == 0x20_0000_0000_0000,
                e > 0,
        ;
    }
}

/// Whether going back to the normal speed changes anything.
pub fn speed_reset_needed(speed: Option<Double>) -> (r: bool)
    ensures
        r == reset_needed(speed),
{
    match speed {
        Some(speed) => Double::epsilon().less(speed.minus(Double::from_u64(1)).absolute()),
        None => false,
    }
}

/// What a choice of the sleep timer does.
#[derive(Clone, Copy, Debug, PartialEq, Eq, Structural)]
pub enum SleepTimer {
    Off,
    Minutes(u32),
    EndOfChapter,
}

/// The number of choices of the sleep timer.
pub const SLEEP_TIMER_CHOICES: usize = 5;

/// The choices of the sleep timer.
pub open spec fn sleep_timer_at(index: usize) -> (Seq<char>, SleepTimer) {
    if index == 0 {
        ("Off"@, SleepTimer::Off)
    } else if index == 1 {
        ("15 minutes"@, SleepTimer::Minutes(15))
    } else if index == 2 {
        ("30 minutes"@, SleepTimer::Minutes(30))
    } else if index == 3 {
        ("45 minutes"@, SleepTimer::Minutes(45))
    } else {
        ("End of chapter"@, SleepTimer::EndOfChapter)
    }
}

/// Between the first choice and the last, each is a quarter of an hour longer than
/// the one before, and its label starts with its minutes; the first is to have no
/// timer, the last to stop at the end of the chapter.
pub proof fn law_sleep_timer(index: usize)
    requires
        index < SLEEP_TIMER_CHOICES,
    ensures
        sleep_timer_at(index).1 == SleepTimer::Off <==> index == 0,
        sleep_timer_at(index).1 == SleepTimer::EndOfChapter <==> index == 4,
        0 < index < 4 ==> sleep_timer_at(index).1 == SleepTimer::Minutes((15 * index) as u32) && sleep_timer_at(index).0
            == digits((15 * index) as nat) + " minutes"@,
{
    reveal_strlit("15 minutes");
    reveal_strlit("30 minutes");
    reveal_strlit("45 minutes");
    reveal_strlit(" minutes");
    reveal_with_fuel(digits, 2);
    assert(digits(15) =~= seq!['1', '5']);
    assert(digits(30) =~= seq!['3', '0']);
    assert(digits(45) =~= seq!['4', '5']);
    assert("15 minutes"@ =~= digits(15) + " minutes"@);
    assert("30 minutes"@ =~= digits(30) + " minutes"@);
    assert("45 minutes"@ =~= digits(45) + " minutes"@);
}

/// A choice of the sleep timer: its label and what it does.
pub fn sleep_timer_option(index: usize) -> (r: (String, SleepTimer))
    requires
        index < SLEEP_TIMER_CHOICES,
    ensures
        (r.0@, r.1) == sleep_timer_at(index),
{
    match index {
        0 => (String::from_str("Off"), SleepTimer::Off),
        1 => (String::from_str("15 minutes"), SleepTimer::Minutes(15)),
        2 => (String::from_str("30 minutes"), SleepTimer::Minutes(30)),
        3 => (String::from_str("45 minutes"), SleepTimer::Minutes(45)),
        _ => (String::from_str("End of chapter"), SleepTimer::EndOfChapter),
    }
}

/// The icon of the download button after an item's download changed its state;
/// none where another item, or no item, is loaded.
pub fn download_icon(current_item: &Option<String>, item_id: &String, state: ItemDownloadState) -> (r: Option<String>)
    ensures
        text_view(r) == match current_item {
            Some(current) => if current@ == item_id@ {
                Some(
                    match state {
                        ItemDownloadState::Downloading => "content-loading-symbolic"@,
                        ItemDownloadState::Complete => "emblem-ok-symbolic"@,
                        _ => "folder-download-symbolic"@,
                    },
                )
            } else {
                None
            },
            None => None,
        },
{
    match current_item {
        Some(current) => {
            if *current == *item_id {
                Some(
                    match state {
                        ItemDownloadState::Downloading => String::from_str("content-loading-symbolic"),
                        ItemDownloadState::Complete => String::from_str("emblem-ok-symbolic"),
                        _ => String::from_str("folder-download-symbolic"),
                    },
                )
            } else {
                None
            }
        },
        None => None,
    }
}

/// What the player says of itself.
#[derive(Clone, Debug)]
pub struct PlayerSnapshot {
    pub title: String,
    pub author: Option<String>,
    pub is_playing: bool,
    pub position: Double,
    pub duration: Double,
    pub speed: Double,
    pub sleep_timer_active: bool,
    pub cover_path: Option<String>,
}

/// How far along a position is, between zero and one; zero without a duration.
pub open spec fn fraction_of(position: Num, duration: Num) -> Num {
    if whole(0).less(duration) {
        clamped(position.over(duration), whole(0), whole(1))
    } else {
        whole(0)
    }
}

/// How far along a position is.
pub fn fraction(position: Double, duration: Double) -> (r: Double)
    ensures
        r@ == fraction_of(position@, duration@),
{
    let zero = Double::from_u64(0);
    if zero.less(duration) {
        position.over(duration).clamped(zero, Double::from_u64(1))
    } else {
        zero
    }
}

/// How far along a position is, is the position's share of the duration: it stays
/// between zero and one, is zero at the start and one from the end on.
pub proof fn law_fraction(position: Num, duration: Num)
    requires
        !position.nan,
        !position.is_infinite(),
        whole(0).less(duration),
        !duration.is_infinite(),
    ensures
        ({
            let f = fraction_of(position, duration);
            &&& !f.nan && 0 <= f.value() <= one()
            &&& position.value() <= 0 ==> f.value() == 0
            &&& position.value() >= duration.value() ==> f.value() == one()
            &&& 0 <= position.value() <= duration.value() ==> pow2(53) * apart(
                f.value() * duration.value(),
                position.value() * one(),
            ) <= position.value() * one() + pow2(52) * duration.value()
        }),
{
    lemma_pow2_pos(1074);
    lemma_pow2_pos(53);
    lemma_pow2_pos(52);
    lemma_pow2_strictly_increases(1074, 2098);
    assert(0 * one() == 0 && 1 * one() == one());
    let (a, b, o) = (position.mag, duration.mag, one());
    let q = crate::rounding::nearest(a * o, b);
    law_over(position, duration);
    let f = fraction_of(position, duration);
    // the end of the item is exactly one
    crate::rounding::lemma_nearest_ratio(b * o, b, o, 1);
    vstd::arithmetic::power2::lemma2_to64();
    lemma_pow2_strictly_increases(0, 53);
    crate::rounding::lemma_nearest_representable(1, 1074);
    assert(1 * pow2(1074) == o);
    if a <= b {
        assert(a * o <= b * o) by (nonlinear_arith)
            requires
                a <= b,
        ;
        crate::rounding::law_nearest_ordered(a * o, b * o, b);
    } else {
        assert(b * o <= a * o) by (nonlinear_arith)
            requires
                b <= a,
        ;
        crate::rounding::law_nearest_ordered(b * o, a * o, b);
    }
    if a == 0 {
        assert(0 * o == 0);
        crate::double::lemma_zero_nearest(0, b);
        assert(pow2(53) * 0 == 0);
    }
}

/// A later position is never less far along.
pub proof fn law_fraction_rises(a: Num, b: Num, duration: Num)
    requires
        !a.nan && !a.neg && !a.is_infinite(),
        !b.nan && !b.neg && !b.is_infinite(),
        a.mag <= b.mag,
        whole(0).less(duration),
        !duration.is_infinite(),
    ensures
        fraction_of(a, duration).value() <= fraction_of(b, duration).value(),
{
    lemma_pow2_pos(1074);
    lemma_pow2_strictly_increases(1074, 2098);
    assert(0 * one() == 0 && 1 * one() == one());
    assert(a.mag * one() <= b.mag * one()) by (nonlinear_arith)
        requires
            a.mag <= b.mag,
    ;
    crate::rounding::law_nearest_ordered(a.mag * one(), b.mag * one(), duration.mag);
}

/// Without a duration nothing is far along.
pub proof fn law_fraction_without_duration(position: Num, duration: Num)
    requires
        duration.nan || duration.value() <= 0,
    ensures
        fraction_of(position, duration).value() == 0,
{
    lemma_pow2_pos(2098);
    assert(0 * one() == 0);
}

/// The text of what is left of an item.
pub open spec fn remaining_text(position: Num, duration: Num) -> Seq<char> {
    "-"@ + time_text(at_least_zero(duration.plus(position.negated())))
}

/// What is left is written after a minus; with whole seconds, what has been played
/// and what is left make up the whole item.
pub proof fn law_elapsed_and_remaining(position: nat, duration: nat)
    requires
        position <= duration < pow2(53),
    ensures
        ({
            let (played, left) = (time_text(whole(position)), remaining_text(whole(position), whole(duration)));
            &&& left.len() > 0 && left[0] == '-' && is_clock(left.skip(1))
            &&& seconds_in(played) == position
            &&& seconds_in(left.skip(1)) == duration - position
        }),
{
    let rest = (duration - position) as nat;
    law_whole_minus(duration, position);
    lemma_whole_value(rest);
    lemma_whole_value(position);
    law_at_least_zero(whole(rest));
    lemma_whole_seconds(position);
    lemma_whole_seconds(rest);
    reveal_strlit("-");
    assert(remaining_text(whole(position), whole(duration)).skip(1) =~= time_text(whole(rest)));
}

/// Past the end nothing is left.
pub proof fn law_nothing_left(position: Num, duration: Num)
    requires
        !position.nan && !position.is_infinite(),
        !duration.nan && !duration.is_infinite(),
        position.value() >= duration.value(),
    ensures
        remaining_text(position, duration).len() > 0,
        remaining_text(position, duration)[0] == '-',
        seconds_in(remaining_text(position, duration).skip(1)) == 0,
{
    let d = duration.plus(position.negated());
    lemma_pow2_pos(2098);
    lemma_pow2_pos(1074);
    law_at_least_zero(d);
    law_time_read_back(at_least_zero(d));
    reveal_strlit("-");
    let text = time_text(at_least_zero(d));
    assert(remaining_text(position, duration).skip(1) =~= text);
    assert(0 < 0x1_0000_0000_0000_0000 * one()) by (nonlinear_arith)
        requires
            one() > 0,
    ;
    let t = seconds_in(text);
    assert(t == 0) by (nonlinear_arith)
        requires
            t * one() <= 0,
            one() > 0,
    ;
}

/// Whole seconds read back as they are.
pub proof fn lemma_whole_seconds(n: nat)
    requires
        n < pow2(53),
    ensures
        is_clock(time_text(whole(n))),
        seconds_in(time_text(whole(n))) == n,
{
    lemma_whole_value(n);
    lemma_pow2_pos(1074);
    vstd::arithmetic::power2::lemma2_to64();
    lemma_pow2_adds(53, 11);
    let (o, v) = (one() as int, whole(n).value());
    assert(pow2(53) < 0x1_0000_0000_0000_0000) by {
        lemma_pow2_strictly_increases(53, 64);
    }
    assert(0 <= v < 0x1_0000_0000_0000_0000 * o) by (nonlinear_arith)
        requires
            v == n * o,
            n < 0x1_0000_0000_0000_0000,
            o > 0,
    ;
    law_time_read_back(whole(n));
    let t = seconds_in(time_text(whole(n))) as int;
    assert(t == n) by (nonlinear_arith)
        requires
            t * o <= n * o < (t + 1) * o,
            o > 0,
    ;
}

/// What the screen shows of the player.
#[derive(Clone, Debug)]
pub struct PlayerScreen {
    pub title: String,
    pub author: String,
    pub author_visible: bool,
    pub play_icon: String,
    /// Where the scrubber stands.
    pub fraction: Double,
    pub elapsed: String,
    pub remaining: String,
    pub speed: String,
    pub sleep_timer_accent: bool,
    pub cover_path: Option<String>,
}

/// What the screen shows of a snapshot. `shortest_speed` is the shortest
/// decimal text that stands for the speed.
pub fn build(snapshot: &PlayerSnapshot, shortest_speed: &str) -> (r: PlayerScreen)
    ensures
        r.title@ == snapshot.title@,
        r.author@ == match snapshot.author {
            Some(author) => author@,
            None => ""@,
        },
        r.author_visible == (snapshot.author is Some),
        r.play_icon@ == if snapshot.is_playing {
            "media-playback-pause-symbolic"@
        } else {
            "media-playback-start-symbolic"@
        },
        r.fraction@ == fraction_of(snapshot.position@, snapshot.duration@),
        r.elapsed@ == time_text(snapshot.position@),
        r.remaining@ == remaining_text(snapshot.position@, snapshot.duration@),
        r.speed@ == speed_text(snapshot.speed@, shortest_speed@),
        r.sleep_timer_accent == snapshot.sleep_timer_active,
        text_view(r.cover_path) == text_view(snapshot.cover_path),
{
    let (author, author_visible) = match &snapshot.author {
        Some(author) => (author.clone(), true),
        None => (String::from_str(""), false),
    };
    let left = format_hms(snapshot.duration.minus(snapshot.position).at_least_zero());
    PlayerScreen {
        title: snapshot.title.clone(),
        author,
        author_visible,
        play_icon: if snapshot.is_playing {
            String::from_str("media-playback-pause-symbolic")
        } else {
            String::from_str("media-playback-start-symbolic")
        },
        fraction: fraction(snapshot.position, snapshot.duration),
        elapsed: format_hms(snapshot.position),
        remaining: String::from_str("-").concat(left.as_str()),
        speed: format_speed(snapshot.speed, shortest_speed),
        sleep_timer_accent: snapshot.sleep_timer_active,
        cover_path: copy_text(&snapshot.cover_path),
    }
}

/// A move of the scrubber seeks, unless it only follows the player.
pub fn scrubbed(following: bool, value: Double) -> (r: Option<Double>)
    ensures
        r == if following {
            None
        } else {
            Some(value)
        },
{
    if following {
        None
    } else {
        Some(value)
    }
}

/// The marks of the chapters are theirs by place: a further mark is that of the next
/// chapter and changes no other, and a chapter without one is not marked.
pub proof fn law_marked(markers: Seq<bool>, mark: bool, i: int)
    requires
        0 <= i,
    ensures
        marked(markers.push(mark), markers.len() as int) == mark,
        i != markers.len() ==> marked(markers.push(mark), i) == marked(markers, i),
        !marked(Seq::empty(), i),
{
}

/// What is left is the time from the position to the end, its fractions cut off.
pub proof fn law_remaining(position: Num, duration: Num)
    requires
        !position.nan && !position.is_infinite(),
        !duration.nan && !duration.is_infinite(),
        0 < duration.value() - position.value() < 0x1000_0000_0000_0000 * one(),
    ensures
        ({
            let text = remaining_text(position, duration);
            let (t, v) = (seconds_in(text.skip(1)), duration.value() - position.value());
            &&& text.len() > 0 && text[0] == '-' && is_clock(text.skip(1))
            &&& 0x20_0000_0000_0000 * (t * one() - v) <= v + 0x10_0000_0000_0000
            &&& 0x20_0000_0000_0000 * (v - (t + 1) * one()) < v + 0x10_0000_0000_0000
        }),
{
    let d = duration.plus(position.negated());
    law_minus(duration, position);
    law_at_least_zero(d);
    law_time_read_back(d);
    lemma_pow2_pos(1074);
    vstd::arithmetic::power2::lemma2_to64();
    lemma_pow2_strictly_increases(64, 1074);
    reveal_strlit("-");
    assert(remaining_text(position, duration).skip(1) =~= time_text(d));
}

/// A speed that is above a whole number by less than the epsilon is written with one
/// decimal; one without an end, or none at all, is written as it is.
pub proof fn law_near_whole_speed(speed: Num, w: nat, shortest: Seq<char>)
    ensures
        speed.nan || speed.is_infinite() ==> speed_text(speed, shortest) == shortest + "×"@,
        !speed.nan && !speed.is_infinite() && !speed.neg && w * one() <= speed.mag < w * one() + pow2(1022) ==> {
            let text = speed_text(speed, shortest);
            &&& text.len() > 0 && text.last() == '×' && is_decimal(text.drop_last())
            &&& 2 * apart((tenths_in(text.drop_last()) * one()) as int, (10 * speed.mag) as int) <= one()
        },
{
    if !speed.nan && !speed.is_infinite() && !speed.neg && w * one() <= speed.mag < w * one() + pow2(1022) {
        crate::double::law_nearly_whole(speed);
        assert(nearly_whole(speed));
        law_tenths_read_back(speed);
        reveal_strlit("×");
        assert(speed_text(speed, shortest).drop_last() =~= tenths_text(speed));
    }
}

/// Without an end a position is at the end, and in a duration without an end it is at
/// the start; of what is no number nothing is known.
pub proof fn law_fraction_ends(position: Num, duration: Num)
    requires
        whole(0).less(duration),
    ensures
        position.nan ==> fraction_of(position, duration).nan,
        position.is_infinite() && !duration.is_infinite() ==> fraction_of(position, duration).value() == if position.neg {
            0int
        } else {
            one() as int
        },
        !position.nan && !position.is_infinite() && duration.is_infinite() ==> fraction_of(position, duration).value() == 0,
{
    lemma_pow2_pos(1074);
    lemma_pow2_pos(2098);
    lemma_pow2_strictly_increases(1074, 2098);
    assert(0 * one() == 0 && 1 * one() == one());
}

} // verus!
