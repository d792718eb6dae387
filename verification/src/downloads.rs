//! The Downloads tab: one row for every item that is downloaded or being fetched.
use crate::double::{half, infinite, lemma_whole_value, number, one, tenths_text, whole, whole_part, Double, Num};
use crate::models::{is_listed, lemma_listed_push, listed};
use crate::reading::{
    ends_with, is_decimal, is_number, law_digits_read_back, law_share_tenths, lemma_end, number_in, tenths_in,
    without_end,
};
use crate::rounding::{apart, law_nearest, lemma_nearest_representable, nearest, within};
use crate::sync::{copy_text, text_view};
use crate::text::{decimal, digits};
use vstd::arithmetic::mul::lemma_mul_strictly_positive;
use vstd::arithmetic::power2::{
    lemma2_to64, lemma_pow2_adds, lemma_pow2_pos, lemma_pow2_strictly_increases, lemma_pow2_unfold, pow2,
};
use vstd::prelude::*;

verus! {

/// The least time between two writes of a row's live text, in nanoseconds.
pub const LABEL_UPDATE_INTERVAL: u64 = 200_000_000;

/// How old a speed sample may be and still be shown, in nanoseconds.
pub const SPEED_DISPLAY_WINDOW: u64 = 2_000_000_000;

/// "1 chapter", "10 chapters".
pub open spec fn chapters_text(count: nat) -> Seq<char> {
    if count == 1 {
        "1 chapter"@
    } else {
        digits(count) + " chapters"@
    }
}

/// "1 chapter", "10 chapters".
pub fn chapters_label(count: usize) -> (r: String)
    ensures
        r@ == chapters_text(count as nat),
{
    if count == 1 {
        String::from_str("1 chapter")
    } else {
        decimal(count as u64).concat(" chapters")
    }
}

/// The double that an unsigned integer is converted to.
pub open spec fn as_double(n: nat) -> Num {
    number(false, nearest(n * crate::double::one(), 1))
}

/// "5 B", "18.2 MB", "1.3 GB": decimal units, one decimal.
pub open spec fn bytes_text(bytes: nat) -> Seq<char> {
    if bytes >= 1_000_000_000 {
        tenths_text(as_double(bytes).over(whole(1_000_000_000))) + " GB"@
    } else if bytes >= 1_000_000 {
        tenths_text(as_double(bytes).over(whole(1_000_000))) + " MB"@
    } else if bytes >= 1_000 {
        tenths_text(as_double(bytes).over(whole(1_000))) + " kB"@
    } else {
        digits(bytes) + " B"@
    }
}

/// "5 B", "18.2 MB", "1.3 GB": decimal units, one decimal.
pub fn format_bytes(bytes: u64) -> (r: String)
    ensures
        r@ == bytes_text(bytes as nat),
{
    if bytes >= 1_000_000_000 {
        Double::from_u64(bytes).over(Double::from_u64(1_000_000_000)).tenths_text().concat(" GB")
    } else if bytes >= 1_000_000 {
        Double::from_u64(bytes).over(Double::from_u64(1_000_000)).tenths_text().concat(" MB")
    } else if bytes >= 1_000 {
        Double::from_u64(bytes).over(Double::from_u64(1_000)).tenths_text().concat(" kB")
    } else {
        decimal(bytes).concat(" B")
    }
}

/// What an optional rate stands for.
pub open spec fn rate_view(rate: Option<Double>) -> Option<Num> {
    match rate {
        Some(rate) => Some(rate@),
        None => None,
    }
}

/// The text of a row in flight: the chapters done of the batch, where there is
/// one; the bytes so far; the speed, where it is positive.
pub open spec fn downloading_text(batch: Option<(usize, usize)>, bytes: nat, speed: Option<Num>) -> Seq<char> {
    let chapters = match batch {
        Some((finished, total)) => digits(finished as nat) + "/"@ + digits(total as nat) + " chapters"@ + " · "@,
        None => ""@,
    };
    let rate = match speed {
        Some(rate) => if whole(0).less(rate) {
            " · "@ + bytes_text(whole_part(rate)) + "/s"@
        } else {
            ""@
        },
        None => ""@,
    };
    chapters + bytes_text(bytes) + rate
}

/// The text of a row in flight.
pub fn downloading_subtitle(batch: Option<(usize, usize)>, bytes: u64, speed: Option<Double>) -> (r: String)
    ensures
        r@ == downloading_text(batch, bytes as nat, rate_view(speed)),
{
    let chapters = match batch {
        Some((finished, total)) => {
            let done = decimal(finished as u64);
            let all = decimal(total as u64);
            done.concat("/").concat(all.as_str()).concat(" chapters").concat(" · ")
        },
        None => String::from_str(""),
    };
    let size = format_bytes(bytes);
    let rate = match speed {
        Some(rate) => {
            if Double::from_u64(0).less(rate) {
                let text = format_bytes(rate.whole_part());
                String::from_str(" · ").concat(text.as_str()).concat("/s")
            } else {
                String::from_str("")
            }
        },
        None => String::from_str(""),
    };
    chapters.concat(size.as_str()).concat(rate.as_str())
}

/// A stored track of an item.
#[derive(Clone, Debug)]
pub struct DownloadTrack {
    pub ino: String,
    pub bytes_downloaded: i64,
    pub complete: bool,
}

/// The bytes of a stored track; a negative count counts as none.
pub open spec fn stored_bytes(track: DownloadTrack) -> nat {
    if track.bytes_downloaded > 0 {
        track.bytes_downloaded as nat
    } else {
        0
    }
}

/// The bytes of all tracks.
pub open spec fn sum_stored(tracks: Seq<DownloadTrack>) -> nat
    decreases tracks.len(),
{
    if tracks.len() == 0 {
        0
    } else {
        sum_stored(tracks.drop_last()) + stored_bytes(tracks.last())
    }
}

/// How many tracks are complete.
pub open spec fn count_complete(tracks: Seq<DownloadTrack>) -> nat
    decreases tracks.len(),
{
    if tracks.len() == 0 {
        0
    } else {
        count_complete(tracks.drop_last()) + if tracks.last().complete {
            1nat
        } else {
            0
        }
    }
}

/// The bytes of the complete tracks.
pub open spec fn sum_complete(tracks: Seq<DownloadTrack>) -> nat
    decreases tracks.len(),
{
    if tracks.len() == 0 {
        0
    } else {
        sum_complete(tracks.drop_last()) + if tracks.last().complete {
            stored_bytes(tracks.last())
        } else {
            0
        }
    }
}

/// The complete tracks are some of all of them.
proof fn lemma_complete_within(tracks: Seq<DownloadTrack>)
    ensures
        sum_complete(tracks) <= sum_stored(tracks),
        count_complete(tracks) <= tracks.len(),
    decreases tracks.len(),
{
    if tracks.len() > 0 {
        lemma_complete_within(tracks.drop_last());
    }
}

/// More tracks never sum to less.
proof fn lemma_sum_stored_take(tracks: Seq<DownloadTrack>, n: int)
    requires
        0 <= n <= tracks.len(),
    ensures
        sum_stored(tracks.take(n)) <= sum_stored(tracks),
    decreases tracks.len(),
{
    if n == tracks.len() {
        assert(tracks.take(n) =~= tracks);
    } else {
        assert(tracks.drop_last().take(n) =~= tracks.take(n));
        lemma_sum_stored_take(tracks.drop_last(), n);
    }
}

/// The number of complete tracks, the bytes of those, and the bytes of all.
fn tally(tracks: &Vec<DownloadTrack>) -> (r: (usize, u64, u64))
    requires
        sum_stored(tracks@) <= u64::MAX,
    ensures
        r.0 == count_complete(tracks@),
        r.1 == sum_complete(tracks@),
        r.2 == sum_stored(tracks@),
{
    let mut count: usize = 0;
    let mut done: u64 = 0;
    let mut all: u64 = 0;
    let mut n: usize = 0;
    while n < tracks.len()
        invariant
            n <= tracks.len(),
            sum_stored(tracks@) <= u64::MAX,
            count == count_complete(tracks@.take(n as int)),
            done == sum_complete(tracks@.take(n as int)),
            all == sum_stored(tracks@.take(n as int)),
        decreases tracks.len() - n,
    {
        let track = &tracks[n];
        proof {
            let next = tracks@.take(n + 1);
            assert(next.drop_last() =~= tracks@.take(n as int));
            assert(next.last() == tracks[n as int]);
            lemma_sum_stored_take(tracks@, n + 1);
            lemma_complete_within(next);
            lemma_complete_within(tracks@.take(n as int));
        }
        let bytes: u64 = if track.bytes_downloaded > 0 {
            track.bytes_downloaded as u64
        } else {
            0
        };
        if track.complete {
            count = count + 1;
            done = done + bytes;
        }
        all = all + bytes;
        n = n + 1;
    }
    assert(tracks@.take(tracks.len() as int) =~= tracks@);
    (count, done, all)
}

/// The text of a row that is not in flight: none without a complete chapter.
pub open spec fn completed_text(tracks: Seq<DownloadTrack>) -> Option<Seq<char>> {
    if count_complete(tracks) == 0 {
        None
    } else {
        Some(chapters_text(count_complete(tracks)) + ", "@ + bytes_text(sum_complete(tracks)))
    }
}

/// The text of a row that is not in flight.
pub fn completed_subtitle(tracks: &Vec<DownloadTrack>) -> (r: Option<String>)
    requires
        sum_stored(tracks@) <= u64::MAX,
    ensures
        match r {
            Some(text) => completed_text(tracks@) == Some(text@),
            None => completed_text(tracks@) is None,
        },
{
    let (count, size, _) = tally(tracks);
    if count == 0 {
        None
    } else {
        let bytes = format_bytes(size);
        Some(chapters_label(count).concat(", ").concat(bytes.as_str()))
    }
}

/// The bytes that one track of an item has so far.
#[derive(Clone, Debug)]
pub struct TrackBytes {
    pub ino: String,
    pub bytes: u64,
}

/// The bytes that one track of an item has so far.
pub struct TrackView {
    pub ino: Seq<char>,
    pub bytes: u64,
}

impl View for TrackBytes {
    type V = TrackView;

    open spec fn view(&self) -> TrackView {
        TrackView { ino: self.ino@, bytes: self.bytes }
    }
}

/// The smoothed speed of an item. Times are nanoseconds of a monotonic clock.
#[derive(Clone, Copy, Debug)]
pub struct SpeedState {
    pub ema: Double,
    pub last_bytes: u64,
    pub last_sample: Option<u64>,
    pub last_label: u64,
}

/// The smoothed speed of an item.
pub struct SpeedView {
    pub ema: Num,
    pub last_bytes: u64,
    pub last_sample: Option<u64>,
    pub last_label: u64,
}

impl View for SpeedState {
    type V = SpeedView;

    open spec fn view(&self) -> SpeedView {
        SpeedView {
            ema: self.ema@,
            last_bytes: self.last_bytes,
            last_sample: self.last_sample,
            last_label: self.last_label,
        }
    }
}

/// The time between two readings of the clock; none where it went back.
pub open spec fn elapsed(from: u64, to: u64) -> nat {
    if to > from {
        (to - from) as nat
    } else {
        0
    }
}

/// Nanoseconds as seconds.
pub open spec fn seconds_of(nanos: nat) -> Num {
    as_double(nanos / 1_000_000_000).plus(as_double(nanos % 1_000_000_000).over(whole(1_000_000_000)))
}

/// A speed state before its first sample.
pub open spec fn fresh_speed(bytes: u64, now: u64) -> SpeedView {
    SpeedView { ema: whole(0), last_bytes: bytes, last_sample: None, last_label: now }
}

/// A sample of the bytes so far. The first one is the baseline; a later one at
/// a later time gives a rate, half of which and half of what was make the new
/// speed, or all of which where there was none.
pub open spec fn sampled(speed: SpeedView, bytes: u64, now: u64) -> SpeedView {
    match speed.last_sample {
        None => SpeedView { last_bytes: bytes, last_sample: Some(now), ..speed },
        Some(at) => if elapsed(at, now) > 0 {
            let gained = if bytes > speed.last_bytes {
                (bytes - speed.last_bytes) as nat
            } else {
                0
            };
            let rate = as_double(gained).over(seconds_of(elapsed(at, now)));
            SpeedView {
                ema: if speed.ema.at_most(whole(0)) {
                    rate
                } else {
                    speed.ema.times(half()).plus(rate.times(half()))
                },
                last_bytes: bytes,
                last_sample: Some(now),
                ..speed
            }
        } else {
            speed
        },
    }
}

/// Whether a row's live text is due to be written.
pub open spec fn label_due(speed: SpeedView, now: u64) -> bool {
    elapsed(speed.last_label, now) >= LABEL_UPDATE_INTERVAL
}

/// The speed that is worth showing: a positive one that is not stale.
pub open spec fn shown_speed(speed: Option<SpeedView>, now: u64) -> Option<Num> {
    match speed {
        Some(s) => if whole(0).less(s.ema) && s.last_sample is Some && elapsed(s.last_sample->0, now)
            < SPEED_DISPLAY_WINDOW {
            Some(s.ema)
        } else {
            None
        },
        None => None,
    }
}

/// A speed state before its first sample.
fn start_speed(bytes: u64, now: u64) -> (r: SpeedState)
    ensures
        r@ == fresh_speed(bytes, now),
{
    SpeedState { ema: Double::from_u64(0), last_bytes: bytes, last_sample: None, last_label: now }
}

/// A sample of the bytes so far.
pub fn sample_speed(speed: SpeedState, bytes: u64, now: u64) -> (r: SpeedState)
    ensures
        r@ == sampled(speed@, bytes, now),
{
    match speed.last_sample {
        None => SpeedState { last_bytes: bytes, last_sample: Some(now), ..speed },
        Some(at) => {
            if now > at {
                let passed: u64 = now - at;
                let seconds = Double::from_u64(passed / 1_000_000_000).plus(
                    Double::from_u64(passed % 1_000_000_000).over(Double::from_u64(1_000_000_000)),
                );
                let gained: u64 = if bytes > speed.last_bytes {
                    bytes - speed.last_bytes
                } else {
                    0
                };
                let rate = Double::from_u64(gained).over(seconds);
                let ema = if speed.ema.at_most(Double::from_u64(0)) {
                    rate
                } else {
                    speed.ema.times(Double::half()).plus(rate.times(Double::half()))
                };
                SpeedState { ema, last_bytes: bytes, last_sample: Some(now), ..speed }
            } else {
                speed
            }
        },
    }
}

/// The speed that is worth showing.
pub fn speed_to_show(speed: &Option<SpeedState>, now: u64) -> (r: Option<Double>)
    ensures
        rate_view(r) == shown_speed(
            match speed {
                Some(s) => Some(s@),
                None => None,
            },
            now,
        ),
{
    match speed {
        Some(s) => match s.last_sample {
            Some(at) => {
                let age: u64 = if now > at {
                    now - at
                } else {
                    0
                };
                if Double::from_u64(0).less(s.ema) && age < SPEED_DISPLAY_WINDOW {
                    Some(s.ema)
                } else {
                    None
                }
            },
            None => None,
        },
        None => None,
    }
}

/// What is known of an item that is downloaded or being fetched.
#[derive(Clone, Debug)]
pub struct Flight {
    pub item_id: String,
    pub tracks: Vec<TrackBytes>,
    pub speed: Option<SpeedState>,
}

/// What is known of an item that is downloaded or being fetched.
pub struct FlightView {
    pub item_id: Seq<char>,
    pub tracks: Seq<TrackView>,
    pub speed: Option<SpeedView>,
}

/// The tracks of a list.
pub open spec fn track_views(tracks: Seq<TrackBytes>) -> Seq<TrackView> {
    tracks.map_values(|t: TrackBytes| t@)
}

impl View for Flight {
    type V = FlightView;

    open spec fn view(&self) -> FlightView {
        FlightView {
            item_id: self.item_id@,
            tracks: track_views(self.tracks@),
            speed: match self.speed {
                Some(s) => Some(s@),
                None => None,
            },
        }
    }
}

/// What is known of the items.
pub open spec fn flight_views(flights: Seq<Flight>) -> Seq<FlightView> {
    flights.map_values(|f: Flight| f@)
}

/// The place of a track in a list; the end of the list where it has none.
pub open spec fn track_place(tracks: Seq<TrackView>, ino: Seq<char>) -> nat
    decreases tracks.len(),
{
    if tracks.len() == 0 || tracks[0].ino == ino {
        0
    } else {
        1 + track_place(tracks.skip(1), ino)
    }
}

/// The tracks with the bytes of one of them overwritten, or added.
pub open spec fn with_track(tracks: Seq<TrackView>, ino: Seq<char>, bytes: u64) -> Seq<TrackView> {
    let i = track_place(tracks, ino);
    let entry = TrackView { ino, bytes };
    if i < tracks.len() {
        tracks.update(i as int, entry)
    } else {
        tracks.push(entry)
    }
}

/// The bytes of all tracks.
pub open spec fn sum_tracks(tracks: Seq<TrackView>) -> nat
    decreases tracks.len(),
{
    if tracks.len() == 0 {
        0
    } else {
        sum_tracks(tracks.drop_last()) + tracks.last().bytes as nat
    }
}

/// The place of an item in a list; the end of the list where it has none.
pub open spec fn flight_place(flights: Seq<FlightView>, id: Seq<char>) -> nat
    decreases flights.len(),
{
    if flights.len() == 0 || flights[0].item_id == id {
        0
    } else {
        1 + flight_place(flights.skip(1), id)
    }
}

/// What is known of an item; nothing where it is not in the list.
pub open spec fn flight_of(flights: Seq<FlightView>, id: Seq<char>) -> FlightView {
    let i = flight_place(flights, id);
    if i < flights.len() {
        flights[i as int]
    } else {
        FlightView { item_id: id, tracks: Seq::empty(), speed: None }
    }
}

/// The list with what is known of one item overwritten, or added.
pub open spec fn with_flight(flights: Seq<FlightView>, flight: FlightView) -> Seq<FlightView> {
    let i = flight_place(flights, flight.item_id);
    if i < flights.len() {
        flights.update(i as int, flight)
    } else {
        flights.push(flight)
    }
}

fn place_of_track(tracks: &Vec<TrackBytes>, ino: &String) -> (i: usize)
    ensures
        i == track_place(track_views(tracks@), ino@),
        i <= tracks.len(),
{
    let mut i: usize = 0;
    let ghost all = track_views(tracks@);
    assert(all.skip(0) =~= all);
    while i < tracks.len()
        invariant
            i <= tracks.len(),
            all == track_views(tracks@),
            track_place(all, ino@) == i + track_place(all.skip(i as int), ino@),
        decreases tracks.len() - i,
    {
        assert(all.skip(i as int)[0] == tracks[i as int]@);
        if tracks[i].ino == *ino {
            return i;
        }
        assert(all.skip(i as int).skip(1) =~= all.skip(i + 1));
        i = i + 1;
    }
    i
}

fn place_of_flight(flights: &Vec<Flight>, id: &String) -> (i: usize)
    ensures
        i == flight_place(flight_views(flights@), id@),
        i <= flights.len(),
{
    let mut i: usize = 0;
    let ghost all = flight_views(flights@);
    assert(all.skip(0) =~= all);
    while i < flights.len()
        invariant
            i <= flights.len(),
            all == flight_views(flights@),
            flight_place(all, id@) == i + flight_place(all.skip(i as int), id@),
        decreases flights.len() - i,
    {
        assert(all.skip(i as int)[0] == flights[i as int]@);
        if flights[i].item_id == *id {
            return i;
        }
        assert(all.skip(i as int).skip(1) =~= all.skip(i + 1));
        i = i + 1;
    }
    i
}

/// Overwrites the bytes of a track, or adds it.
fn put_track(tracks: Vec<TrackBytes>, ino: &String, bytes: u64) -> (r: Vec<TrackBytes>)
    ensures
        track_views(r@) == with_track(track_views(tracks@), ino@, bytes),
{
    let i: usize = place_of_track(&tracks, ino);
    let mut out = tracks;
    let entry = TrackBytes { ino: ino.clone(), bytes };
    if i < out.len() {
        out.set(i, entry);
        assert(track_views(out@) =~= track_views(tracks@).update(i as int, entry@));
    } else {
        out.push(entry);
        assert(track_views(out@) =~= track_views(tracks@).push(entry@));
    }
    out
}

/// More tracks never sum to less.
proof fn lemma_sum_tracks_take(tracks: Seq<TrackView>, n: int)
    requires
        0 <= n <= tracks.len(),
    ensures
        sum_tracks(tracks.take(n)) <= sum_tracks(tracks),
    decreases tracks.len(),
{
    if n == tracks.len() {
        assert(tracks.take(n) =~= tracks);
    } else {
        assert(tracks.drop_last().take(n) =~= tracks.take(n));
        lemma_sum_tracks_take(tracks.drop_last(), n);
    }
}

fn total_bytes(tracks: &Vec<TrackBytes>) -> (r: u64)
    requires
        sum_tracks(track_views(tracks@)) <= u64::MAX,
    ensures
        r == sum_tracks(track_views(tracks@)),
{
    let mut sum: u64 = 0;
    let mut n: usize = 0;
    let ghost all = track_views(tracks@);
    while n < tracks.len()
        invariant
            n <= tracks.len(),
            all == track_views(tracks@),
            sum_tracks(all) <= u64::MAX,
            sum == sum_tracks(all.take(n as int)),
        decreases tracks.len() - n,
    {
        proof {
            let next = all.take(n + 1);
            assert(next.drop_last() =~= all.take(n as int));
            assert(next.last() == tracks[n as int]@);
            lemma_sum_tracks_take(all, n + 1);
        }
        sum = sum + tracks[n].bytes;
        n = n + 1;
    }
    assert(all.take(tracks.len() as int) =~= all);
    sum
}

/// Takes what is known of an item out of the list, ready to be put back.
fn take_flight(flights: Vec<Flight>, id: &String) -> (r: (Vec<Flight>, Flight, usize))
    ensures
        r.1@ == flight_of(flight_views(flights@), id@),
        r.2 == flight_place(flight_views(flights@), id@),
        r.2 <= r.0.len(),
        forall|f: Flight|
            f@.item_id == id@ ==> flight_views(#[trigger] r.0@.insert(r.2 as int, f)) == with_flight(
                flight_views(flights@),
                f@,
            ),
{
    let i: usize = place_of_flight(&flights, id);
    let ghost all = flights@;
    let mut left = flights;
    if i < left.len() {
        let flight = left.remove(i);
        proof {
            assert forall|f: Flight| f@.item_id == id@ implies flight_views(#[trigger] left@.insert(i as int, f))
                == with_flight(flight_views(all), f@) by {
                assert(left@.insert(i as int, f) =~= all.update(i as int, f));
                assert(flight_views(all.update(i as int, f)) =~= flight_views(all).update(i as int, f@));
            }
        }
        (left, flight, i)
    } else {
        let flight = Flight { item_id: id.clone(), tracks: Vec::new(), speed: None };
        proof {
            assert(flight@.tracks =~= Seq::empty());
            assert forall|f: Flight| f@.item_id == id@ implies flight_views(#[trigger] left@.insert(i as int, f))
                == with_flight(flight_views(all), f@) by {
                assert(left@.insert(i as int, f) =~= all.push(f));
                assert(flight_views(all.push(f)) =~= flight_views(all).push(f@));
            }
        }
        (left, flight, i)
    }
}

/// Where the download of an item stands.
#[derive(Clone, Copy, Debug, PartialEq, Eq, Structural)]
pub enum ItemDownloadState {
    Idle,
    Downloading,
    Stopped,
    Complete,
    Failed,
}

/// A row of the tab. One in flight can be stopped, any other removed.
#[derive(Clone, Debug)]
pub struct DownloadRow {
    pub item_id: String,
    pub title: String,
    pub cover_path: Option<String>,
    pub subtitle: Option<String>,
    pub downloading: bool,
}

/// What the button of a row asks for.
#[derive(Clone, Copy, Debug, PartialEq, Eq, Structural)]
pub enum RowAction {
    /// The download ends; the chapters that have arrived stay.
    Stop,
    /// All that is stored of the item goes.
    Remove,
}

/// What the button of a row asks for: a download in flight is stopped, anything
/// else removed.
pub fn row_action(row: &DownloadRow) -> (r: RowAction)
    ensures
        r == if row.downloading {
            RowAction::Stop
        } else {
            RowAction::Remove
        },
{
    if row.downloading {
        RowAction::Stop
    } else {
        RowAction::Remove
    }
}

/// A row of the tab.
pub struct RowView {
    pub item_id: Seq<char>,
    pub title: Seq<char>,
    pub cover_path: Option<Seq<char>>,
    pub subtitle: Option<Seq<char>>,
    pub downloading: bool,
}

impl View for DownloadRow {
    type V = RowView;

    open spec fn view(&self) -> RowView {
        RowView {
            item_id: self.item_id@,
            title: self.title@,
            cover_path: text_view(self.cover_path),
            subtitle: text_view(self.subtitle),
            downloading: self.downloading,
        }
    }
}

/// The rows of the tab.
pub open spec fn row_views(rows: Seq<DownloadRow>) -> Seq<RowView> {
    rows.map_values(|r: DownloadRow| r@)
}

/// What was found in local storage of an item that gets a row.
#[derive(Clone, Debug)]
pub struct FoundItem {
    pub item_id: String,
    pub title: String,
    pub cover_path: Option<String>,
    pub tracks: Vec<DownloadTrack>,
    /// The chapters done and the chapters in all of the batch in flight.
    pub batch: Option<(usize, usize)>,
}

/// The state of the tab.
#[derive(Clone, Debug)]
pub struct DownloadsScreen {
    /// The items in flight: what is stored only knows complete tracks.
    pub downloading: Vec<String>,
    pub flights: Vec<Flight>,
    pub rows: Vec<DownloadRow>,
    pub status_visible: bool,
    pub scroller_visible: bool,
}

/// The tab before anything is loaded.
pub fn build() -> (r: DownloadsScreen)
    ensures
        r.downloading.len() == 0,
        r.flights.len() == 0,
        r.rows.len() == 0,
        !r.status_visible,
        r.scroller_visible,
{
    DownloadsScreen {
        downloading: Vec::new(),
        flights: Vec::new(),
        rows: Vec::new(),
        status_visible: false,
        scroller_visible: true,
    }
}

/// A list without a text.
pub open spec fn without(ids: Seq<String>, id: Seq<char>) -> Seq<String>
    decreases ids.len(),
{
    if ids.len() == 0 {
        Seq::empty()
    } else if ids.last()@ == id {
        without(ids.drop_last(), id)
    } else {
        without(ids.drop_last(), id).push(ids.last())
    }
}

/// The first list, followed by what the first `n` of the second add to it.
pub open spec fn merged(first: Seq<String>, second: Seq<String>, n: nat) -> Seq<String>
    decreases n,
{
    if n == 0 {
        first
    } else {
        let m = merged(first, second, (n - 1) as nat);
        if listed(m, second[n - 1]@) {
            m
        } else {
            m.push(second[n - 1])
        }
    }
}

/// What an item's progress event makes of what is known of it.
pub open spec fn progressed(flight: FlightView, ino: Seq<char>, bytes: u64, now: u64) -> FlightView {
    let before = match flight.speed {
        Some(s) => s,
        None => fresh_speed(bytes, now),
    };
    let after = sampled(before, bytes, now);
    FlightView {
        item_id: flight.item_id,
        tracks: with_track(flight.tracks, ino, bytes),
        speed: Some(
            if label_due(after, now) {
                SpeedView { last_label: now, ..after }
            } else {
                after
            },
        ),
    }
}

/// Whether an item has a row in flight.
pub open spec fn has_live_row(rows: Seq<RowView>, id: Seq<char>) -> bool {
    exists|i: int| 0 <= i < rows.len() && (#[trigger] rows[i]).item_id == id && rows[i].downloading
}

fn live_row(rows: &Vec<DownloadRow>, id: &String) -> (r: bool)
    ensures
        r == has_live_row(row_views(rows@), id@),
{
    let mut i: usize = 0;
    let ghost all = row_views(rows@);
    while i < rows.len()
        invariant
            i <= rows.len(),
            all == row_views(rows@),
            forall|k: int| 0 <= k < i ==> !((#[trigger] all[k]).item_id == id@ && all[k].downloading),
        decreases rows.len() - i,
    {
        assert(all[i as int] == rows[i as int]@);
        if rows[i].item_id == *id && rows[i].downloading {
            return true;
        }
        i = i + 1;
    }
    false
}

impl DownloadsScreen {
    /// The download of an item changes its state. Only one in flight is kept in mind.
    pub fn state_changed(self, item_id: &String, state: ItemDownloadState) -> (r: DownloadsScreen)
        ensures
            r == (DownloadsScreen { downloading: r.downloading, ..self }),
            r.downloading@ == if state == ItemDownloadState::Downloading {
                if listed(self.downloading@, item_id@) {
                    self.downloading@
                } else {
                    self.downloading@.push(*item_id)
                }
            } else {
                without(self.downloading@, item_id@)
            },
    {
        if state == ItemDownloadState::Downloading {
            if is_listed(&self.downloading, item_id) {
                self
            } else {
                let mut downloading = self.downloading;
                downloading.push(item_id.clone());
                DownloadsScreen { downloading, ..self }
            }
        } else {
            let mut downloading: Vec<String> = Vec::new();
            let mut n: usize = 0;
            assert(self.downloading@.take(0).len() == 0);
            assert(downloading@ =~= without(self.downloading@.take(0), item_id@));
            while n < self.downloading.len()
                invariant
                    n <= self.downloading.len(),
                    downloading@ == without(self.downloading@.take(n as int), item_id@),
                decreases self.downloading.len() - n,
            {
                assert(self.downloading@.take(n + 1).drop_last() =~= self.downloading@.take(n as int));
                assert(self.downloading@.take(n + 1).last() == self.downloading[n as int]);
                if self.downloading[n] != *item_id {
                    downloading.push(self.downloading[n].clone());
                }
                n = n + 1;
            }
            assert(self.downloading@.take(n as int) =~= self.downloading@);
            DownloadsScreen { downloading, ..self }
        }
    }

    /// A track of an item has more bytes. The text to write into the item's row,
    /// where it has one in flight and the last text is old enough.
    pub fn track_progress(
        self,
        item_id: &String,
        ino: &String,
        bytes_downloaded: u64,
        now: u64,
        batch: Option<(usize, usize)>,
    ) -> (r: (DownloadsScreen, Option<String>))
        requires
            sum_tracks(
                with_track(flight_of(flight_views(self.flights@), item_id@).tracks, ino@, bytes_downloaded),
            ) <= u64::MAX,
        ensures
            ({
                let before = flight_of(flight_views(self.flights@), item_id@);
                let after = progressed(before, ino@, bytes_downloaded, now);
                let due = match before.speed {
                    Some(s) => label_due(s, now),
                    None => false,
                };
                &&& r.0 == (DownloadsScreen { flights: r.0.flights, ..self })
                &&& flight_views(r.0.flights@) == with_flight(flight_views(self.flights@), after)
                &&& match r.1 {
                    Some(text) => due && has_live_row(row_views(self.rows@), item_id@) && text@ == downloading_text(
                        batch,
                        sum_tracks(after.tracks),
                        Some(after.speed->0.ema),
                    ),
                    None => !(due && has_live_row(row_views(self.rows@), item_id@)),
                }
            }),
    {
        let ghost views = flight_views(self.flights@);
        let (left, flight, place) = take_flight(self.flights, item_id);
        let ghost known = flight@;
        let tracks = put_track(flight.tracks, ino, bytes_downloaded);
        let start = match flight.speed {
            Some(s) => s,
            None => start_speed(bytes_downloaded, now),
        };
        let sample = sample_speed(start, bytes_downloaded, now);
        let since: u64 = if now > sample.last_label {
            now - sample.last_label
        } else {
            0
        };
        let due: bool = since >= LABEL_UPDATE_INTERVAL;
        let speed = if due {
            SpeedState { last_label: now, ..sample }
        } else {
            sample
        };
        let text = if due && live_row(&self.rows, item_id) {
            let bytes: u64 = total_bytes(&tracks);
            Some(downloading_subtitle(batch, bytes, Some(speed.ema)))
        } else {
            None
        };
        let updated = Flight { item_id: item_id.clone(), tracks, speed: Some(speed) };
        assert(known.item_id == item_id@) by {
            lemma_flight_of_id(views, item_id@);
        }
        assert(updated@ == progressed(known, ino@, bytes_downloaded, now));
        let mut flights = left;
        assert(flight_views(left@.insert(place as int, updated)) == with_flight(views, updated@));
        flights.insert(place, updated);
        (DownloadsScreen { flights, ..self }, text)
    }

    /// The items that get a row: those downloaded, followed by those in flight.
    pub fn row_ids(&self, downloaded: &Vec<String>) -> (r: Vec<String>)
        ensures
            r@ == merged(downloaded@, self.downloading@, self.downloading.len() as nat),
    {
        let mut ids: Vec<String> = Vec::new();
        let mut n: usize = 0;
        while n < downloaded.len()
            invariant
                n <= downloaded.len(),
                ids@ == downloaded@.take(n as int),
            decreases downloaded.len() - n,
        {
            ids.push(downloaded[n].clone());
            n = n + 1;
            assert(ids@ =~= downloaded@.take(n as int));
        }
        assert(downloaded@.take(n as int) =~= downloaded@);
        let mut m: usize = 0;
        while m < self.downloading.len()
            invariant
                m <= self.downloading.len(),
                ids@ == merged(downloaded@, self.downloading@, m as nat),
            decreases self.downloading.len() - m,
        {
            if !is_listed(&ids, &self.downloading[m]) {
                ids.push(self.downloading[m].clone());
            }
            m = m + 1;
        }
        ids
    }
}

/// What is known of an item is known under its id.
proof fn lemma_flight_of_id(flights: Seq<FlightView>, id: Seq<char>)
    ensures
        flight_of(flights, id).item_id == id,
        flight_place(flights, id) <= flights.len(),
    decreases flights.len(),
{
    if flights.len() > 0 && flights[0].item_id != id {
        lemma_flight_of_id(flights.skip(1), id);
    }
}

/// The live bytes of an item as its first `n` stored tracks give them.
pub open spec fn seeded(tracks: Seq<DownloadTrack>, n: nat) -> Seq<TrackView>
    decreases n,
{
    if n == 0 {
        Seq::empty()
    } else {
        with_track(
            seeded(tracks, (n - 1) as nat),
            tracks[n - 1].ino@,
            stored_bytes(tracks[n - 1]) as u64,
        )
    }
}

/// What is known of the items after the first `n` found ones gave their stored bytes.
pub open spec fn seeded_flights(flights: Seq<FlightView>, found: Seq<FoundItem>, n: nat) -> Seq<FlightView>
    decreases n,
{
    if n == 0 {
        flights
    } else {
        let before = seeded_flights(flights, found, (n - 1) as nat);
        let item = found[n - 1];
        with_flight(
            before,
            FlightView {
                item_id: item.item_id@,
                tracks: seeded(item.tracks@, item.tracks@.len()),
                speed: flight_of(before, item.item_id@).speed,
            },
        )
    }
}

/// Only what is known of the items with one of the ids.
pub open spec fn kept_flights(flights: Seq<FlightView>, ids: Seq<String>) -> Seq<FlightView>
    decreases flights.len(),
{
    if flights.len() == 0 {
        Seq::empty()
    } else if listed(ids, flights.last().item_id) {
        kept_flights(flights.drop_last(), ids).push(flights.last())
    } else {
        kept_flights(flights.drop_last(), ids)
    }
}

/// The row of a found item.
pub open spec fn row_of(item: FoundItem, downloading: bool, speed: Option<SpeedView>, now: u64) -> RowView {
    RowView {
        item_id: item.item_id@,
        title: item.title@,
        cover_path: text_view(item.cover_path),
        subtitle: if downloading {
            Some(downloading_text(item.batch, sum_stored(item.tracks@), shown_speed(speed, now)))
        } else {
            completed_text(item.tracks@)
        },
        downloading,
    }
}

/// The rows of the found items.
pub open spec fn rows_of(screen: DownloadsScreen, found: Seq<FoundItem>, now: u64) -> Seq<RowView> {
    Seq::new(
        found.len(),
        |i: int|
            row_of(
                found[i],
                listed(screen.downloading@, found[i].item_id@),
                flight_of(flight_views(screen.flights@), found[i].item_id@).speed,
                now,
            ),
    )
}

fn seed_tracks(tracks: &Vec<DownloadTrack>) -> (r: Vec<TrackBytes>)
    ensures
        track_views(r@) == seeded(tracks@, tracks@.len()),
{
    let mut out: Vec<TrackBytes> = Vec::new();
    let mut n: usize = 0;
    assert(track_views(out@) =~= seeded(tracks@, 0));
    while n < tracks.len()
        invariant
            n <= tracks.len(),
            track_views(out@) == seeded(tracks@, n as nat),
        decreases tracks.len() - n,
    {
        let bytes: u64 = if tracks[n].bytes_downloaded > 0 {
            tracks[n].bytes_downloaded as u64
        } else {
            0
        };
        out = put_track(out, &tracks[n].ino, bytes);
        n = n + 1;
    }
    out
}

/// Keeps what is known of the items with one of the ids.
fn keep_flights(flights: Vec<Flight>, ids: &Vec<String>) -> (r: Vec<Flight>)
    ensures
        flight_views(r@) == kept_flights(flight_views(flights@), ids@),
{
    let ghost all = flight_views(flights@);
    let mut left = flights;
    let mut out: Vec<Flight> = Vec::new();
    assert(kept_flights(all, ids@) + flight_views(out@) =~= kept_flights(all, ids@));
    while left.len() > 0
        invariant
            kept_flights(all, ids@) == kept_flights(flight_views(left@), ids@) + flight_views(out@),
        decreases left.len(),
    {
        let ghost before = left@;
        let ghost old_out = out@;
        match left.pop() {
            Some(flight) => {
                proof {
                    assert(flight_views(before).drop_last() =~= flight_views(left@));
                    assert(flight_views(before).last() == flight@);
                }
                if is_listed(ids, &flight.item_id) {
                    out.insert(0, flight);
                    proof {
                        assert(flight_views(out@) =~= seq![flight@] + flight_views(old_out));
                        assert(kept_flights(flight_views(before), ids@) + flight_views(old_out) =~= kept_flights(
                            flight_views(left@),
                            ids@,
                        ) + flight_views(out@));
                    }
                }
            },
            None => {},
        }
    }
    proof {
        assert(flight_views(left@).len() == 0);
        assert(kept_flights(flight_views(left@), ids@) + flight_views(out@) =~= flight_views(out@));
    }
    out
}

/// Where an item stands does not depend on what is known of it.
proof fn lemma_place_update(flights: Seq<FlightView>, i: int, flight: FlightView, id: Seq<char>)
    requires
        0 <= i < flights.len(),
        flights[i].item_id == flight.item_id,
    ensures
        flight_place(flights.update(i, flight), id) == flight_place(flights, id),
    decreases flights.len(),
{
    let next = flights.update(i, flight);
    if flights[0].item_id != id {
        if i > 0 {
            assert(next.skip(1) =~= flights.skip(1).update(i - 1, flight));
            lemma_place_update(flights.skip(1), i - 1, flight, id);
        } else {
            assert(next.skip(1) =~= flights.skip(1));
        }
    }
}

/// A further item at the end of the list stands where nothing stood.
proof fn lemma_place_push(flights: Seq<FlightView>, flight: FlightView, id: Seq<char>)
    ensures
        flight_place(flights.push(flight), id) == if flight_place(flights, id) < flights.len() || flight.item_id
            == id {
            flight_place(flights, id)
        } else {
            (flights.len() + 1) as nat
        },
        flight_place(flights, id) <= flights.len(),
    decreases flights.len(),
{
    let next = flights.push(flight);
    if flights.len() == 0 {
        assert(next[0] == flight);
        assert(flight_place(next.skip(1), id) == 0);
    } else {
        assert(next[0] == flights[0]);
        if flights[0].item_id != id {
            assert(next.skip(1) =~= flights.skip(1).push(flight));
            assert(flights.skip(1).len() == flights.len() - 1);
            lemma_place_push(flights.skip(1), flight, id);
            assert(flight_place(next, id) == 1 + flight_place(next.skip(1), id));
            assert(flight_place(flights, id) == 1 + flight_place(flights.skip(1), id));
        }
    }
}

/// Overwriting what is known of an item but its speed leaves all speeds alone.
proof fn lemma_speed_kept(flights: Seq<FlightView>, flight: FlightView, id: Seq<char>)
    requires
        flight.speed == flight_of(flights, flight.item_id).speed,
    ensures
        flight_of(with_flight(flights, flight), id).speed == flight_of(flights, id).speed,
{
    lemma_flight_of_id(flights, flight.item_id);
    lemma_flight_of_id(flights, id);
    let i = flight_place(flights, flight.item_id) as int;
    if i < flights.len() {
        lemma_place_update(flights, i, flight, id);
    } else {
        lemma_place_push(flights, flight, id);
    }
}

/// The stored bytes leave all speeds alone.
proof fn lemma_seeding_keeps_speed(flights: Seq<FlightView>, found: Seq<FoundItem>, n: nat, id: Seq<char>)
    ensures
        flight_of(seeded_flights(flights, found, n), id).speed == flight_of(flights, id).speed,
    decreases n,
{
    if n > 0 {
        let before = seeded_flights(flights, found, (n - 1) as nat);
        let item = found[n - 1];
        lemma_seeding_keeps_speed(flights, found, (n - 1) as nat, id);
        lemma_speed_kept(
            before,
            FlightView {
                item_id: item.item_id@,
                tracks: seeded(item.tracks@, item.tracks@.len()),
                speed: flight_of(before, item.item_id@).speed,
            },
            id,
        );
    }
}

/// The text of a row of a found item.
fn row_text(item: &FoundItem, downloading: bool, speed: &Option<SpeedState>, now: u64) -> (r: Option<String>)
    requires
        sum_stored(item.tracks@) <= u64::MAX,
    ensures
        text_view(r) == row_of(
            *item,
            downloading,
            match speed {
                Some(s) => Some(s@),
                None => None,
            },
            now,
        ).subtitle,
{
    if downloading {
        let (_, _, bytes) = tally(&item.tracks);
        Some(downloading_subtitle(item.batch, bytes, speed_to_show(speed, now)))
    } else {
        completed_subtitle(&item.tracks)
    }
}

impl DownloadsScreen {
    /// The rows are built anew from what was found of the items with the ids.
    /// What is known of any other item is forgotten.
    pub fn refreshed(self, ids: &Vec<String>, found: &Vec<FoundItem>, now: u64) -> (r: DownloadsScreen)
        requires
            forall|i: int| 0 <= i < found.len() ==> sum_stored((#[trigger] found[i]).tracks@) <= u64::MAX,
        ensures
            r.downloading == self.downloading,
            row_views(r.rows@) == rows_of(self, found@, now),
            flight_views(r.flights@) == kept_flights(
                seeded_flights(flight_views(self.flights@), found@, found@.len()),
                ids@,
            ),
            r.status_visible == (found.len() == 0),
            r.scroller_visible == (found.len() > 0),
    {
        let ghost known = flight_views(self.flights@);
        let ghost wanted = rows_of(self, found@, now);
        let mut flights = self.flights;
        let mut rows: Vec<DownloadRow> = Vec::new();
        let mut n: usize = 0;
        while n < found.len()
            invariant
                n <= found.len(),
                known == flight_views(self.flights@),
                wanted == rows_of(self, found@, now),
                forall|i: int| 0 <= i < found.len() ==> sum_stored((#[trigger] found[i]).tracks@) <= u64::MAX,
                flight_views(flights@) == seeded_flights(known, found@, n as nat),
                rows.len() == n,
                forall|i: int| 0 <= i < n ==> (#[trigger] rows[i])@ == wanted[i],
            decreases found.len() - n,
        {
            let item = &found[n];
            let ghost views = flight_views(flights@);
            let downloading: bool = is_listed(&self.downloading, &item.item_id);
            let (left, flight, place) = take_flight(flights, &item.item_id);
            proof {
                lemma_seeding_keeps_speed(known, found@, n as nat, item.item_id@);
            }
            let speed = flight.speed;
            let subtitle = row_text(item, downloading, &speed, now);
            let row = DownloadRow {
                item_id: item.item_id.clone(),
                title: item.title.clone(),
                cover_path: copy_text(&item.cover_path),
                subtitle,
                downloading,
            };
            let updated = Flight { item_id: item.item_id.clone(), tracks: seed_tracks(&item.tracks), speed };
            assert(flight_views(left@.insert(place as int, updated)) == with_flight(views, updated@));
            let mut next = left;
            next.insert(place, updated);
            flights = next;
            rows.push(row);
            n = n + 1;
        }
        assert(row_views(rows@) =~= wanted);
        let any_row: bool = rows.len() > 0;
        DownloadsScreen {
            flights: keep_flights(flights, ids),
            rows,
            status_visible: !any_row,
            scroller_visible: any_row,
            ..self
        }
    }
}

/// Downloaded items come first, every item has one row at most, and every item
/// downloaded or in flight is among them.
pub proof fn law_row_ids(downloaded: Seq<String>, downloading: Seq<String>, n: nat)
    requires
        n <= downloading.len(),
        forall|i: int, j: int|
            0 <= i < j < downloaded.len() ==> (#[trigger] downloaded[i])@ != (#[trigger] downloaded[j])@,
    ensures
        ({
            let ids = merged(downloaded, downloading, n);
            &&& downloaded.len() <= ids.len()
            &&& ids.take(downloaded.len() as int) == downloaded
            &&& forall|i: int, j: int| 0 <= i < j < ids.len() ==> (#[trigger] ids[i])@ != (#[trigger] ids[j])@
            &&& forall|g: Seq<char>|
                #[trigger] listed(ids, g) == (listed(downloaded, g) || listed(downloading.take(n as int), g))
        }),
    decreases n,
{
    let ids = merged(downloaded, downloading, n);
    if n == 0 {
        assert(ids.take(downloaded.len() as int) =~= downloaded);
        assert forall|g: Seq<char>| #[trigger]
            listed(ids, g) == (listed(downloaded, g) || listed(downloading.take(0), g)) by {}
    } else {
        let m = (n - 1) as nat;
        law_row_ids(downloaded, downloading, m);
        let init = merged(downloaded, downloading, m);
        let x = downloading[n - 1];
        assert(downloading.take(n as int) =~= downloading.take(m as int).push(x));
        assert forall|g: Seq<char>| #[trigger]
            listed(ids, g) == (listed(downloaded, g) || listed(downloading.take(n as int), g)) by {
            assert(listed(init, g) == (listed(downloaded, g) || listed(downloading.take(m as int), g)));
            lemma_listed_push(downloading.take(m as int), x, g);
            lemma_listed_push(init, x, g);
        }
        if !listed(init, x@) {
            assert forall|i: int, j: int| 0 <= i < j < ids.len() implies (#[trigger] ids[i])@ != (#[trigger] ids[j])@ by {
                if j == ids.len() - 1 {
                    assert(init[i]@ != x@);
                } else {
                    assert(ids[i] == init[i] && ids[j] == init[j]);
                }
            }
            assert(ids.take(downloaded.len() as int) =~= init.take(downloaded.len() as int));
        }
    }
}

/// An item that stops being fetched is no longer in flight; another one is as before.
pub proof fn law_stopped_not_in_flight(ids: Seq<String>, id: Seq<char>, other: Seq<char>)
    ensures
        !listed(without(ids, id), id),
        other != id ==> listed(without(ids, id), other) == listed(ids, other),
    decreases ids.len(),
{
    if ids.len() > 0 {
        let init = ids.drop_last();
        law_stopped_not_in_flight(init, id, other);
        assert(ids =~= init.push(ids.last()));
        lemma_listed_push(init, ids.last(), other);
        lemma_listed_push(without(init, id), ids.last(), other);
        lemma_listed_push(without(init, id), ids.last(), id);
    }
}

/// A stopped download with a complete chapter keeps its row, with the summary of
/// what is complete.
pub proof fn law_stop_keeps_complete(screen: DownloadsScreen, found: Seq<FoundItem>, now: u64, i: int)
    requires
        0 <= i < found.len(),
        !listed(screen.downloading@, found[i].item_id@),
        count_complete(found[i].tracks@) > 0,
    ensures
        ({
            let row = rows_of(screen, found, now)[i];
            &&& row.item_id == found[i].item_id@
            &&& !row.downloading
            &&& row.subtitle == Some(
                chapters_text(count_complete(found[i].tracks@)) + ", "@ + bytes_text(sum_complete(found[i].tracks@)),
            )
        }),
{
}

/// Between two texts written into one row at least the update interval passes.
pub proof fn law_label_throttled(flight: FlightView, ino: Seq<char>, bytes: u64, now: u64, later: u64)
    requires
        flight.speed matches Some(s) && label_due(s, now),
        elapsed(now, later) < LABEL_UPDATE_INTERVAL,
    ensures
        progressed(flight, ino, bytes, now).speed matches Some(s) && s.last_label == now && !label_due(s, later),
{
}

/// What is known of an item that is no longer in the list is forgotten.
pub proof fn law_forgotten(flights: Seq<FlightView>, ids: Seq<String>)
    ensures
        forall|i: int|
            0 <= i < kept_flights(flights, ids).len() ==> listed(ids, (#[trigger] kept_flights(flights, ids)[i]).item_id),
    decreases flights.len(),
{
    if flights.len() > 0 {
        law_forgotten(flights.drop_last(), ids);
        let (kept, init) = (kept_flights(flights, ids), kept_flights(flights.drop_last(), ids));
        assert forall|i: int| 0 <= i < kept.len() implies listed(ids, (#[trigger] kept[i]).item_id) by {
            if i < init.len() {
                assert(kept[i] == init[i]);
            }
        }
    }
}

/// What is counted over tracks adds up: for some tracks followed by others it is
/// the count for the former and the count for the latter.
pub proof fn law_tracks_add_up(a: Seq<DownloadTrack>, b: Seq<DownloadTrack>)
    ensures
        sum_complete(a + b) == sum_complete(a) + sum_complete(b),
        count_complete(a + b) == count_complete(a) + count_complete(b),
        sum_stored(a + b) == sum_stored(a) + sum_stored(b),
    decreases b.len(),
{
    if b.len() == 0 {
        assert(a + b =~= a);
    } else {
        law_tracks_add_up(a, b.drop_last());
        assert((a + b).drop_last() =~= a + b.drop_last());
        assert((a + b).last() == b.last());
    }
}

/// One track counts if it is complete, with the bytes that it has; a negative
/// number of bytes is none.
pub proof fn law_one_track(track: DownloadTrack)
    ensures
        ({
            let bytes: int = if track.bytes_downloaded < 0 {
                0
            } else {
                track.bytes_downloaded as int
            };
            &&& sum_stored(seq![track]) == bytes
            &&& track.complete ==> count_complete(seq![track]) == 1 && sum_complete(seq![track]) == bytes
            &&& !track.complete ==> count_complete(seq![track]) == 0 && sum_complete(seq![track]) == 0
        }),
{
    let one_track = seq![track];
    assert(one_track.drop_last() =~= Seq::empty());
    assert(sum_stored(one_track.drop_last()) == 0);
    assert(count_complete(one_track.drop_last()) == 0);
    assert(sum_complete(one_track.drop_last()) == 0);
}

/// The complete tracks are counted one by one; where all are complete, their bytes
/// are the bytes of all; where none is, there are none.
pub proof fn law_complete_tracks(tracks: Seq<DownloadTrack>)
    ensures
        count_complete(tracks) == tracks.filter(|t: DownloadTrack| t.complete).len(),
        sum_complete(tracks) <= sum_stored(tracks),
        (forall|i: int| 0 <= i < tracks.len() ==> (#[trigger] tracks[i]).complete) ==> sum_complete(tracks) == sum_stored(
            tracks,
        ) && count_complete(tracks) == tracks.len(),
        (forall|i: int| 0 <= i < tracks.len() ==> !(#[trigger] tracks[i]).complete) <==> count_complete(tracks) == 0,
        count_complete(tracks) == 0 ==> sum_complete(tracks) == 0,
    decreases tracks.len(),
{
    reveal(Seq::filter);
    if tracks.len() > 0 {
        let init = tracks.drop_last();
        law_complete_tracks(init);
        assert(forall|i: int| 0 <= i < init.len() ==> init[i] == tracks[i]);
        assert(tracks.last() == tracks[tracks.len() - 1]);
        if count_complete(tracks) == 0 {
            assert forall|i: int| 0 <= i < tracks.len() implies !(#[trigger] tracks[i]).complete by {
                if i < init.len() {
                    assert(!init[i].complete);
                }
            }
        }
        if forall|i: int| 0 <= i < tracks.len() ==> (#[trigger] tracks[i]).complete {
            assert forall|i: int| 0 <= i < init.len() implies (#[trigger] init[i]).complete by {
                assert(tracks[i].complete);
            }
        }
        if forall|i: int| 0 <= i < tracks.len() ==> !(#[trigger] tracks[i]).complete {
            assert forall|i: int| 0 <= i < init.len() implies !(#[trigger] init[i]).complete by {
                assert(!tracks[i].complete);
            }
        }
    }
}

/// How many chapters there are is written before the word for them, which is in
/// the singular for one of them alone.
pub proof fn law_chapters_read_back(count: nat)
    ensures
        ({
            let text = chapters_text(count);
            let end = if count == 1 {
                " chapter"@
            } else {
                " chapters"@
            };
            ends_with(text, end) && is_number(without_end(text, end)) && number_in(without_end(text, end)) == count
        }),
{
    law_digits_read_back(count);
    lemma_end(digits(count), " chapters"@);
    if count == 1 {
        reveal_strlit("1 chapter");
        reveal_strlit(" chapter");
        assert(digits(1) =~= seq!['1']);
        assert("1 chapter"@ =~= digits(1) + " chapter"@);
        lemma_end(digits(1), " chapter"@);
    }
}

/// The summary counts the complete tracks alone: with none there is no summary,
/// and others make no difference to it. It is the number of them and then, after a
/// comma, the bytes in them.
pub proof fn law_completed_text(complete: Seq<DownloadTrack>, others: Seq<DownloadTrack>)
    requires
        forall|i: int| 0 <= i < complete.len() ==> (#[trigger] complete[i]).complete,
        forall|i: int| 0 <= i < others.len() ==> !(#[trigger] others[i]).complete,
    ensures
        completed_text(complete + others) == completed_text(complete),
        completed_text(others + complete) == completed_text(complete),
        completed_text(complete) is None <==> complete.len() == 0,
        completed_text(complete) matches Some(text) ==> text == chapters_text(complete.len()) + ", "@ + bytes_text(
            sum_stored(complete),
        ),
{
    law_tracks_add_up(complete, others);
    law_tracks_add_up(others, complete);
    law_complete_tracks(complete);
    law_complete_tracks(others);
}

proof fn lemma_constants()
    ensures
        pow2(44) == 0x1000_0000_0000,
        pow2(48) == 0x1_0000_0000_0000,
        pow2(50) == 0x4_0000_0000_0000,
        pow2(52) == 0x10_0000_0000_0000,
        pow2(53) == 0x20_0000_0000_0000,
        pow2(64) == 0x1_0000_0000_0000_0000,
        one() >= pow2(64) * pow2(64),
        one() > 0,
        infinite() >= pow2(1020) * one(),
        pow2(1020) >= pow2(64) * (pow2(64) * pow2(64)),
{
    lemma2_to64();
    lemma_pow2_adds(32, 12);
    lemma_pow2_adds(32, 16);
    lemma_pow2_adds(32, 18);
    lemma_pow2_adds(32, 20);
    lemma_pow2_adds(32, 21);
    lemma_pow2_adds(64, 64);
    lemma_pow2_adds(64, 128);
    lemma_pow2_strictly_increases(128, 1074);
    lemma_pow2_strictly_increases(192, 1020);
    lemma_pow2_adds(1020, 1074);
    lemma_pow2_strictly_increases(2094, 2098);
}

/// The double of an integer is away from it by one part in `2^53` at most, and not
/// at all below `2^53`.
pub proof fn law_as_double(n: nat)
    requires
        n <= u64::MAX,
    ensures
        !as_double(n).nan && !as_double(n).neg && !as_double(n).is_infinite(),
        pow2(53) * apart(as_double(n).mag as int, (n * one()) as int) <= n * one(),
        n < pow2(53) ==> as_double(n) == whole(n),
        n == 0 <==> as_double(n).mag == 0,
{
    lemma_constants();
    let o = one();
    let v = nearest(n * o, 1);
    law_nearest(n * o, 1);
    assert(v * 1 == v);
    if n < pow2(53) {
        lemma_nearest_representable(n, 1074);
        lemma_whole_value(n);
        assert(pow2(53) * 0 == 0);
        assert(n == 0 <==> n * o == 0) by (nonlinear_arith)
            requires
                o > 0,
        ;
    } else {
        // from 2^53 quanta on the error is relative
        assert(n * o >= n) by (nonlinear_arith)
            requires
                o >= 1,
        ;
        lemma_relative(n * o);
        let (vi, ni, oi) = (v as int, n as int, o as int);
        assert(vi > 0 && vi < pow2(1020) * oi) by (nonlinear_arith)
            requires
                0x20_0000_0000_0000 * apart(vi, ni * oi) <= ni * oi,
                0x20_0000_0000_0000 <= ni <= 0xffff_ffff_ffff_ffff,
                pow2(1020) >= 0x1_0000_0000_0000_0000 * (0x1_0000_0000_0000_0000 * 0x1_0000_0000_0000_0000),
                oi > 0,
        ;
    }
}

/// From `2^53` on what a number rounds to is away from it by one part in `2^53`.
proof fn lemma_relative(n: nat)
    requires
        n >= pow2(53),
    ensures
        pow2(53) * apart(nearest(n, 1) as int, n as int) <= n,
{
    crate::rounding::law_nearest_relative(n, 1);
    assert(nearest(n, 1) * 1 == nearest(n, 1));
}

/// A number of bytes reads back: below a thousand as it is; from then on with one
/// decimal, to the nearest, in the largest of three units that it reaches.
pub proof fn law_bytes_read_back(bytes: nat)
    requires
        bytes <= u64::MAX,
    ensures
        ({
            let text = bytes_text(bytes);
            if bytes < 1_000 {
                &&& ends_with(text, " B"@)
                &&& is_number(without_end(text, " B"@)) && number_in(without_end(text, " B"@)) == bytes
            } else {
                let (end, unit) = if bytes < 1_000_000 {
                    (" kB"@, 1_000int)
                } else if bytes < 1_000_000_000 {
                    (" MB"@, 1_000_000int)
                } else {
                    (" GB"@, 1_000_000_000int)
                };
                let count = tenths_in(without_end(text, end));
                &&& ends_with(text, end) && is_decimal(without_end(text, end))
                &&& pow2(44) * (2 * apart(count * unit, (10 * bytes) as int) - unit) <= unit + 10 * bytes
            }
        }),
{
    lemma_constants();
    law_digits_read_back(bytes);
    lemma_end(digits(bytes), " B"@);
    law_as_double(bytes);
    let x = as_double(bytes);
    if bytes >= 1_000 {
        let (end, unit) = if bytes < 1_000_000 {
            (" kB"@, 1_000nat)
        } else if bytes < 1_000_000_000 {
            (" MB"@, 1_000_000nat)
        } else {
            (" GB"@, 1_000_000_000nat)
        };
        let t = tenths_text(x.over(whole(unit)));
        law_share_tenths(x, unit);
        lemma_end(t, end);
        lemma_bytes(tenths_in(t), unit, x.mag, bytes);
    }
}

/// From the double of a number of bytes back to the bytes.
proof fn lemma_bytes(count: nat, unit: nat, a: nat, bytes: nat)
    requires
        within(count, unit * one(), 10 * a),
        pow2(53) * apart(a as int, (bytes * one()) as int) <= bytes * one(),
    ensures
        pow2(44) * (2 * apart((count * unit) as int, (10 * bytes) as int) - unit) <= unit + 10 * bytes,
{
    lemma_constants();
    let o = one() as int;
    let (c, u, ai, b) = (count as int, unit as int, a as int, bytes as int);
    let m = pow2(48) as int;
    let g1 = apart(c * (u * o), 10 * ai);
    let g2 = apart(ai, b * o);
    let g = apart(c * u, 10 * b);
    assert(c * (u * o) == (c * u) * o) by (nonlinear_arith);
    assert((10 * b) * o == 10 * (b * o)) by (nonlinear_arith);
    assert(g * o == apart((c * u) * o, (10 * b) * o)) by (nonlinear_arith)
        requires
            g == apart(c * u, 10 * b),
            o > 0,
    ;
    assert(g * o <= g1 + 10 * g2);
    let uo = u * o;
    let bo = b * o;
    assert(0 <= uo && 0 <= bo) by (nonlinear_arith)
        requires
            u >= 0,
            b >= 0,
            o > 0,
            uo == u * o,
            bo == b * o,
    ;
    assert(m * (2 * (g * o) - uo) <= 2 * (uo + 10 * bo)) by (nonlinear_arith)
        requires
            m == 0x1_0000_0000_0000,
            m * (2 * g1 - uo) <= uo + 10 * ai,
            0x20_0000_0000_0000 * g2 <= bo,
            ai <= bo + g2,
            g * o <= g1 + 10 * g2,
            uo >= 0,
            bo >= 0,
    ;
    let over = 2 * g - u;
    assert(2 * (g * o) - uo == over * o) by (nonlinear_arith)
        requires
            over == 2 * g - u,
            uo == u * o,
    ;
    assert(m * over <= 2 * (u + 10 * b)) by (nonlinear_arith)
        requires
            m * (over * o) <= 2 * (u * o + 10 * (b * o)),
            o > 0,
    ;
    assert(0 <= u + 10 * b);
}

/// A number of bytes below a terabyte reads back to the nearest tenth of its unit.
pub proof fn law_bytes_to_the_tenth(bytes: nat, count: nat, unit: nat)
    requires
        1_000 <= bytes < 0x100_0000_0000,
        unit == if bytes < 1_000_000 {
            1_000nat
        } else if bytes < 1_000_000_000 {
            1_000_000nat
        } else {
            1_000_000_000nat
        },
        count == tenths_in(bytes_text(bytes).take(bytes_text(bytes).len() - 3)),
    ensures
        2 * apart((count * unit) as int, (10 * bytes) as int) <= unit,
{
    lemma_constants();
    law_bytes_read_back(bytes);
    reveal_strlit(" kB");
    reveal_strlit(" MB");
    reveal_strlit(" GB");
    let over = 2 * apart((count * unit) as int, (10 * bytes) as int) - unit;
    if over > 0 {
        assert(pow2(44) * over >= pow2(44)) by (nonlinear_arith)
            requires
                over >= 1,
                pow2(44) > 0,
        ;
    }
}

/// The text of a row in flight names the chapters of the batch first, where there
/// is one, then the bytes, and last a speed that is above zero.
pub proof fn law_downloading_text(finished: usize, total: usize, bytes: nat, speed: Num)
    ensures
        downloading_text(None, bytes, None) == bytes_text(bytes),
        downloading_text(Some((finished, total)), bytes, None) == digits(finished as nat) + "/"@ + digits(total as nat)
            + " chapters · "@ + bytes_text(bytes),
        !speed.nan && speed.value() > 0 ==> downloading_text(None, bytes, Some(speed)) == bytes_text(bytes) + " · "@
            + bytes_text(whole_part(speed)) + "/s"@ && downloading_text(Some((finished, total)), bytes, Some(speed))
            == downloading_text(Some((finished, total)), bytes, None) + " · "@ + bytes_text(whole_part(speed)) + "/s"@,
        speed.nan || speed.value() <= 0 ==> downloading_text(None, bytes, Some(speed)) == downloading_text(
            None,
            bytes,
            None,
        ) && downloading_text(Some((finished, total)), bytes, Some(speed)) == downloading_text(
            Some((finished, total)),
            bytes,
            None,
        ),
{
    reveal_strlit("");
    reveal_strlit(" chapters · ");
    reveal_strlit(" chapters");
    reveal_strlit(" · ");
    lemma_pow2_pos(2098);
    assert(0 * one() == 0);
    assert(" chapters"@ + " · "@ =~= " chapters · "@);
    let batch = Some((finished, total));
    assert(downloading_text(None, bytes, None) =~= bytes_text(bytes));
    let head = digits(finished as nat) + "/"@ + digits(total as nat);
    assert(downloading_text(batch, bytes, None) =~= head + " chapters · "@ + bytes_text(bytes));
    if !speed.nan && speed.value() > 0 {
        let rate = bytes_text(whole_part(speed));
        assert(downloading_text(None, bytes, Some(speed)) =~= bytes_text(bytes) + " · "@ + rate + "/s"@);
        assert(downloading_text(batch, bytes, Some(speed)) =~= downloading_text(batch, bytes, None) + " · "@ + rate
            + "/s"@);
    }
}

/// Nanoseconds as seconds are away from the true time by one part in `2^50` at most.
pub proof fn law_seconds(nanos: nat)
    requires
        0 < nanos <= u64::MAX,
    ensures
        ({
            let s = seconds_of(nanos);
            &&& !s.nan && !s.neg && !s.is_infinite() && s.mag > 0
            &&& pow2(50) * apart((s.mag * 1_000_000_000) as int, (nanos * one()) as int) <= nanos * one()
        }),
{
    lemma_constants();
    let o = one() as int;
    let (sec, rest) = (nanos / 1_000_000_000, nanos % 1_000_000_000);
    law_as_double(sec);
    law_as_double(rest);
    lemma_whole_value(sec);
    lemma_whole_value(rest);
    crate::reading::lemma_share(whole(rest), 1_000_000_000);
    let f = whole(rest).over(whole(1_000_000_000));
    let (si, ri, fi, g) = (sec as int, rest as int, f.mag as int, 1_000_000_000int);
    assert(nanos == g * si + ri);
    let sum = si * o + fi;
    let size = sum as nat;
    law_nearest(size, 1);
    let v = nearest(size, 1) as int;
    assert(v * 1 == v);
    let g2 = apart(fi * g, ri * o);
    let g3 = apart(v, sum);
    let n = nanos as int;
    let no = n * o;
    assert(no == g * (si * o) + ri * o) by (nonlinear_arith)
        requires
            no == n * o,
            n == g * si + ri,
    ;
    assert(0 <= si * o && 0 <= ri * o && no >= o) by (nonlinear_arith)
        requires
            si >= 0,
            ri >= 0,
            n >= 1,
            no == n * o,
            o > 0,
    ;
    let m = 0x20_0000_0000_0000int;
    let h = 0x10_0000_0000_0000int;
    assert(m * g2 <= ri * o + h * g);
    assert(m * g3 <= sum + h);
    assert(o >= 0x1_0000_0000_0000_0000 * 0x1_0000_0000_0000_0000);
    assert(g * g3 >= apart(v * g, sum * g)) by (nonlinear_arith)
        requires
            g3 == apart(v, sum),
            g > 0,
    ;
    assert(sum * g == g * (si * o) + fi * g) by (nonlinear_arith)
        requires
            sum == si * o + fi,
    ;
    let gap = apart(v * g, no);
    assert(gap <= g * g3 + g2);
    // each of the two roundings is within its part
    assert(m * (g * g3) <= g * sum + g * h) by (nonlinear_arith)
        requires
            m * g3 <= sum + h,
            g > 0,
    ;
    assert(g * sum <= no + g2);
    assert(m * gap <= 8 * no) by (nonlinear_arith)
        requires
            gap <= g * g3 + g2,
            m * (g * g3) <= no + g2 + g * h,
            m * g2 <= ri * o + h * g,
            ri * o <= no,
            no >= o,
            o >= 0x1_0000_0000_0000_0000 * 0x1_0000_0000_0000_0000,
            m == 0x20_0000_0000_0000,
            h == 0x10_0000_0000_0000,
            g == 1_000_000_000,
            g2 >= 0,
    ;
    assert(v > 0) by (nonlinear_arith)
        requires
            m * gap <= 8 * no,
            gap == apart(v * g, no),
            m == 0x20_0000_0000_0000,
            no > 0,
            g > 0,
    ;
    assert(v < infinite()) by (nonlinear_arith)
        requires
            m * gap <= 8 * no,
            gap == apart(v * g, no),
            m == 0x20_0000_0000_0000,
            no == n * o,
            n <= 0xffff_ffff_ffff_ffff,
            g == 1_000_000_000,
            o > 0,
            infinite() >= pow2(1020) * o,
            pow2(1020) >= 0x1_0000_0000_0000_0000 * (0x1_0000_0000_0000_0000 * 0x1_0000_0000_0000_0000),
    ;
    assert(sum > 0) by {
        if sum <= 0 {
            assert(size == 0);
            assert(si * o == 0 && fi == 0);
            assert(m * apart(0, ri * o) <= ri * o + h * g);
            assert(false) by (nonlinear_arith)
                requires
                    m * (ri * o) <= ri * o + h * g,
                    no == ri * o,
                    no >= o,
                    o >= 0x1_0000_0000_0000_0000 * 0x1_0000_0000_0000_0000,
                    m == 0x20_0000_0000_0000,
                    h == 0x10_0000_0000_0000,
                    g == 1_000_000_000,
            ;
        }
    }
}

/// The first speed of an item is what it gained over the time that took: bytes by
/// nanoseconds, away from the true ratio by one part in `2^45` at most. Bytes that
/// went back are no gain.
pub proof fn law_first_speed(speed: SpeedView, at: u64, bytes: u64, now: u64)
    requires
        speed.last_sample == Some(at),
        at < now,
        speed.ema.at_most(whole(0)),
    ensures
        ({
            let rate = sampled(speed, bytes, now).ema;
            let gained: int = if bytes > speed.last_bytes {
                bytes - speed.last_bytes
            } else {
                0
            };
            &&& !rate.nan && !rate.neg && !rate.is_infinite()
            &&& pow2(45) * apart(rate.mag * (now - at), gained * 1_000_000_000 * one()) <= gained * 1_000_000_000 * one()
                + pow2(50) * (now - at)
        }),
{
    lemma_constants();
    lemma2_to64();
    lemma_pow2_adds(32, 13);
    let n = (now - at) as nat;
    let gained: nat = if bytes > speed.last_bytes {
        (bytes - speed.last_bytes) as nat
    } else {
        0
    };
    let s = seconds_of(n);
    law_seconds(n);
    law_as_double(gained);
    let a = as_double(gained);
    let o = one() as int;
    let (ai, si, ni, gi) = (a.mag as int, s.mag as int, n as int, gained as int);
    let r = nearest(a.mag * one(), s.mag) as int;
    law_nearest(a.mag * one(), s.mag);
    let m = 0x20_0000_0000_0000int;
    let h = 0x10_0000_0000_0000int;
    let g = 1_000_000_000int;
    // the three roundings
    let e1 = apart(si * g, ni * o);
    let e2 = apart(r * si, ai * o);
    let e3 = apart(ai, gi * o);
    assert(0x4_0000_0000_0000 * e1 <= ni * o);
    assert(m * e2 <= ai * o + h * si);
    assert(m * e3 <= gi * o);
    lemma_rate_bound(r, si, ni, ai, gi, o);
    assert(gained * 1_000_000_000 * one() == gi * g * o);
    assert(r < infinite()) by (nonlinear_arith)
        requires
            0x2000_0000_0000 * apart(r * ni, gi * g * o) <= gi * g * o + 0x4_0000_0000_0000 * ni,
            1 <= ni <= 0xffff_ffff_ffff_ffff,
            0 <= gi <= 0xffff_ffff_ffff_ffff,
            g == 1_000_000_000,
            o >= 0x1_0000_0000_0000_0000 * 0x1_0000_0000_0000_0000,
            infinite() >= pow2(1020) * o,
            pow2(1020) >= 0x1_0000_0000_0000_0000 * (0x1_0000_0000_0000_0000 * 0x1_0000_0000_0000_0000),
            r >= 0,
    ;
    lemma_pow2_pos(2098);
}

/// A rate over a time is what was gained, up to the three roundings on the way.
proof fn lemma_rate_bound(r: int, s: int, n: int, a: int, gained: int, o: int)
    requires
        r >= 0,
        s > 0,
        n > 0,
        a >= 0,
        gained >= 0,
        o >= 0x1_0000_0000_0000_0000 * 0x1_0000_0000_0000_0000,
        0x4_0000_0000_0000 * apart(s * 1_000_000_000, n * o) <= n * o,
        0x20_0000_0000_0000 * apart(r * s, a * o) <= a * o + 0x10_0000_0000_0000 * s,
        0x20_0000_0000_0000 * apart(a, gained * o) <= gained * o,
    ensures
        0x2000_0000_0000 * apart(r * n, gained * 1_000_000_000 * o) <= gained * 1_000_000_000 * o + 0x4_0000_0000_0000
            * n,
{
    let g = 1_000_000_000int;
    let e1 = apart(s * g, n * o);
    let e2 = apart(r * s, a * o);
    let e3 = apart(a, gained * o);
    let goal = gained * g * o;
    // everything once more times the number one
    let (rno, top) = ((r * n) * o, goal * o);
    assert(r * (n * o) == rno) by (nonlinear_arith)
        requires
            rno == (r * n) * o,
    ;
    let rsg = r * (s * g);
    let aog = (a * o) * g;
    assert(rsg == (r * s) * g) by (nonlinear_arith)
        requires
            rsg == r * (s * g),
    ;
    assert(apart(rno, rsg) <= r * e1) by (nonlinear_arith)
        requires
            r * (n * o) == rno,
            rsg == r * (s * g),
            e1 == apart(s * g, n * o),
            r >= 0,
    ;
    assert(apart(rsg, aog) == g * e2) by (nonlinear_arith)
        requires
            rsg == (r * s) * g,
            aog == (a * o) * g,
            e2 == apart(r * s, a * o),
            g == 1_000_000_000,
    ;
    let og = o * g;
    assert(og > 0) by (nonlinear_arith)
        requires
            og == o * g,
            o > 0,
            g > 0,
    ;
    assert(aog == a * og && top == (gained * o) * og) by (nonlinear_arith)
        requires
            aog == (a * o) * g,
            top == (gained * g * o) * o,
            og == o * g,
    ;
    assert(apart(aog, top) == e3 * og) by (nonlinear_arith)
        requires
            aog == a * og,
            top == (gained * o) * og,
            e3 == apart(a, gained * o),
            og > 0,
    ;
    let re1 = r * e1;
    assert(0x4_0000_0000_0000 * re1 <= rno) by (nonlinear_arith)
        requires
            0x4_0000_0000_0000 * e1 <= n * o,
            re1 == r * e1,
            rno == r * (n * o),
            r >= 0,
    ;
    assert(0x20_0000_0000_0000 * (e3 * og) <= top) by (nonlinear_arith)
        requires
            0x20_0000_0000_0000 * e3 <= gained * o,
            top == (gained * o) * og,
            og > 0,
    ;
    let no = n * o;
    assert(0x20_0000_0000_0000 * (g * e2) <= aog + 0x10_0000_0000_0000 * (s * g)) by (nonlinear_arith)
        requires
            0x20_0000_0000_0000 * e2 <= a * o + 0x10_0000_0000_0000 * s,
            aog == (a * o) * g,
            g > 0,
    ;
    assert(top >= 0 && rno >= 0 && no > 0) by (nonlinear_arith)
        requires
            top == (gained * g * o) * o,
            rno == (r * n) * o,
            no == n * o,
            gained >= 0,
            r >= 0,
            n > 0,
            g > 0,
            o > 0,
    ;
    let (sg, e3og, ge2) = (s * g, e3 * og, g * e2);
    let gap = apart(rno, top);
    assert(gap <= re1 + ge2 + e3og);
    assert(sg <= 2 * no);
    assert(0x4000_0000_0000 * gap <= top + 0x4_0000_0000_0000 * no) by (nonlinear_arith)
        requires
            gap <= re1 + ge2 + e3og,
            0x4_0000_0000_0000 * re1 <= rno,
            0x20_0000_0000_0000 * ge2 <= aog + 0x10_0000_0000_0000 * sg,
            0x20_0000_0000_0000 * e3og <= top,
            aog <= top + e3og,
            rno <= top + gap,
            sg <= 2 * no,
            top >= 0,
            no >= 0,
    ;
    let small = apart(r * n, goal);
    assert(gap == small * o) by (nonlinear_arith)
        requires
            gap == apart((r * n) * o, goal * o),
            small == apart(r * n, goal),
            o > 0,
    ;
    assert(0x4000_0000_0000 * small <= goal + 0x4_0000_0000_0000 * n) by (nonlinear_arith)
        requires
            0x4000_0000_0000 * (small * o) <= goal * o + 0x4_0000_0000_0000 * (n * o),
            o > 0,
    ;
}

/// A further speed is the mean of the speed so far and that of the last interval.
pub proof fn law_speed_is_smoothed(speed: SpeedView, at: u64, bytes: u64, now: u64)
    requires
        speed.last_sample == Some(at),
        at < now,
        !speed.ema.nan && !speed.ema.neg && !speed.ema.is_infinite(),
        speed.ema.mag > 0,
    ensures
        ({
            let alone = sampled(SpeedView { ema: whole(0), ..speed }, bytes, now).ema;
            let mean = sampled(speed, bytes, now).ema;
            &&& !mean.nan && !mean.neg
            &&& !mean.is_infinite() ==> pow2(50) * apart((2 * mean.mag) as int, (speed.ema.mag + alone.mag) as int)
                <= speed.ema.mag + alone.mag + pow2(52)
        }),
{
    lemma_constants();
    lemma_pow2_pos(2098);
    assert(0 * one() == 0);
    law_first_speed(SpeedView { ema: whole(0), ..speed }, at, bytes, now);
    let alone = sampled(SpeedView { ema: whole(0), ..speed }, bytes, now).ema;
    lemma_halved(speed.ema);
    lemma_halved(alone);
    let (a, b) = (speed.ema.times(half()), alone.times(half()));
    let size = a.mag + b.mag;
    law_nearest(size, 1);
    assert(nearest(size, 1) * 1 == nearest(size, 1));
}

/// Half of a number.
proof fn lemma_halved(x: Num)
    requires
        !x.nan && !x.neg && !x.is_infinite(),
    ensures
        ({
            let y = x.times(half());
            &&& !y.nan && !y.neg && !y.is_infinite()
            &&& pow2(53) * apart((2 * y.mag) as int, x.mag as int) <= x.mag + pow2(53)
        }),
{
    lemma_constants();
    lemma_pow2_unfold(1074);
    lemma_pow2_pos(1073);
    lemma_pow2_strictly_increases(1073, 2098);
    let (h, o) = (pow2(1073) as int, one() as int);
    let v = nearest(x.mag * pow2(1073), one());
    law_nearest(x.mag * pow2(1073), one());
    let (vi, xi) = (v as int, x.mag as int);
    let (m, m2) = (pow2(53) as int, pow2(52) as int);
    let gap = apart(2 * vi, xi);
    assert(apart(vi * o, xi * h) == gap * h) by (nonlinear_arith)
        requires
            o == 2 * h,
            gap == apart(2 * vi, xi),
            h > 0,
    ;
    assert(m * gap <= xi + m) by (nonlinear_arith)
        requires
            m * (gap * h) <= xi * h + m2 * o,
            o == 2 * h,
            m == 2 * m2,
            h > 0,
    ;
    assert(vi < infinite()) by (nonlinear_arith)
        requires
            m * gap <= xi + m,
            gap == apart(2 * vi, xi),
            xi < infinite(),
            m >= 16,
            infinite() >= 16,
    ;
}

/// A sample is a later look at the bytes: the first one only sets the mark to count
/// from; one at no later time than the last changes nothing; any other moves the
/// mark. When the text was last written is another matter.
pub proof fn law_sample_marks(speed: SpeedView, bytes: u64, now: u64)
    ensures
        speed.last_sample is None ==> sampled(speed, bytes, now).ema == speed.ema && sampled(
            speed,
            bytes,
            now,
        ).last_sample == Some(now) && sampled(speed, bytes, now).last_bytes == bytes,
        speed.last_sample matches Some(at) ==> now <= at ==> sampled(speed, bytes, now) == speed,
        speed.last_sample matches Some(at) ==> at < now ==> sampled(speed, bytes, now).last_sample == Some(now)
            && sampled(speed, bytes, now).last_bytes == bytes,
        sampled(speed, bytes, now).last_label == speed.last_label,
{
}

/// A speed is shown while it is above zero and its last sample is less than two
/// seconds old; what is shown is the speed itself.
pub proof fn law_shown_speed(speed: SpeedView, now: u64)
    ensures
        shown_speed(None, now) is None,
        shown_speed(Some(speed), now) matches Some(rate) ==> rate == speed.ema,
        shown_speed(Some(speed), now) is Some <==> !speed.ema.nan && speed.ema.value() > 0 && (speed.last_sample matches Some(
            at,
        ) && now < at + 2_000_000_000),
{
    lemma_pow2_pos(2098);
    assert(0 * one() == 0);
}

/// A text is due once a fifth of a second has passed since the last one.
pub proof fn law_label_due(speed: SpeedView, now: u64)
    ensures
        label_due(speed, now) <==> now >= speed.last_label + 200_000_000,
{
}

/// With the bytes of a track overwritten or added, that track has those bytes, and
/// no other track has changed; where no track was there twice, none is.
pub proof fn law_with_track(tracks: Seq<TrackView>, ino: Seq<char>, bytes: u64)
    requires
        forall|i: int, j: int| 0 <= i < j < tracks.len() ==> (#[trigger] tracks[i]).ino != (#[trigger] tracks[j]).ino,
    ensures
        ({
            let after = with_track(tracks, ino, bytes);
            &&& after.contains(TrackView { ino, bytes })
            &&& forall|i: int| 0 <= i < after.len() ==> (#[trigger] after[i]).ino == ino ==> after[i].bytes == bytes
            &&& forall|t: TrackView| t.ino != ino ==> (#[trigger] after.contains(t) <==> tracks.contains(t))
            &&& forall|i: int, j: int| 0 <= i < j < after.len() ==> (#[trigger] after[i]).ino != (#[trigger] after[j]).ino
        }),
{
    let after = with_track(tracks, ino, bytes);
    let i = track_place(tracks, ino) as int;
    lemma_track_place(tracks, ino);
    let entry = TrackView { ino, bytes };
    if i < tracks.len() {
        assert(after[i] == entry);
    } else {
        assert(after[tracks.len() as int] == entry);
    }
    assert forall|t: TrackView| t.ino != ino implies (#[trigger] after.contains(t) <==> tracks.contains(t)) by {
        if after.contains(t) {
            let k = choose|k: int| 0 <= k < after.len() && after[k] == t;
            assert(tracks[k] == t);
        }
        if tracks.contains(t) {
            let k = choose|k: int| 0 <= k < tracks.len() && tracks[k] == t;
            assert(after[k] == t);
        }
    }
    assert forall|a: int, b: int| 0 <= a < b < after.len() implies (#[trigger] after[a]).ino != (#[trigger] after[b]).ino by {
        if b < tracks.len() {
            assert(tracks[a].ino != tracks[b].ino);
        }
    }
}

proof fn lemma_track_place(tracks: Seq<TrackView>, ino: Seq<char>)
    ensures
        track_place(tracks, ino) <= tracks.len(),
        track_place(tracks, ino) < tracks.len() ==> tracks[track_place(tracks, ino) as int].ino == ino,
        forall|k: int| 0 <= k < track_place(tracks, ino) ==> (#[trigger] tracks[k]).ino != ino,
    decreases tracks.len(),
{
    if tracks.len() > 0 && tracks[0].ino != ino {
        let rest = tracks.skip(1);
        lemma_track_place(rest, ino);
        assert forall|k: int| 0 <= k < track_place(tracks, ino) implies (#[trigger] tracks[k]).ino != ino by {
            if k > 0 {
                assert(rest[k - 1] == tracks[k]);
            }
        }
    }
}

/// The bytes of all tracks add up.
pub proof fn law_track_bytes_add_up(a: Seq<TrackView>, b: Seq<TrackView>, one_track: TrackView)
    ensures
        sum_tracks(a + b) == sum_tracks(a) + sum_tracks(b),
        sum_tracks(seq![one_track]) == one_track.bytes,
    decreases b.len(),
{
    assert(seq![one_track].drop_last() =~= Seq::empty());
    assert(sum_tracks(seq![one_track].drop_last()) == 0);
    if b.len() == 0 {
        assert(a + b =~= a);
    } else {
        law_track_bytes_add_up(a, b.drop_last(), one_track);
        assert((a + b).drop_last() =~= a + b.drop_last());
        assert((a + b).last() == b.last());
    }
}

/// A new count for a track changes the bytes of all by as much as it changes.
pub proof fn law_progress_adds(tracks: Seq<TrackView>, ino: Seq<char>, bytes: u64)
    ensures
        (forall|i: int| 0 <= i < tracks.len() ==> (#[trigger] tracks[i]).ino != ino) ==> sum_tracks(
            with_track(tracks, ino, bytes),
        ) == sum_tracks(tracks) + bytes,
        forall|i: int|
            0 <= i < tracks.len() && (#[trigger] tracks[i]).ino == ino && (forall|k: int|
                0 <= k < i ==> (#[trigger] tracks[k]).ino != ino) ==> sum_tracks(with_track(tracks, ino, bytes))
                == sum_tracks(tracks) - tracks[i].bytes + bytes,
{
    lemma_track_place(tracks, ino);
    let i = track_place(tracks, ino) as int;
    let entry = TrackView { ino, bytes };
    if i < tracks.len() {
        let (a, b) = (tracks.take(i), tracks.skip(i + 1));
        assert(tracks =~= a + seq![tracks[i]] + b);
        assert(tracks.update(i, entry) =~= a + seq![entry] + b);
        law_track_bytes_add_up(a + seq![tracks[i]], b, entry);
        law_track_bytes_add_up(a, seq![tracks[i]], tracks[i]);
        law_track_bytes_add_up(a + seq![entry], b, entry);
        law_track_bytes_add_up(a, seq![entry], entry);
    } else {
        assert(tracks.push(entry) =~= tracks + seq![entry]);
        law_track_bytes_add_up(tracks, seq![entry], entry);
    }
}

/// What is put down of an item is what is known of it; of any other item nothing
/// changes.
pub proof fn law_with_flight(flights: Seq<FlightView>, flight: FlightView, other: Seq<char>)
    requires
        other != flight.item_id,
    ensures
        flight_of(with_flight(flights, flight), flight.item_id) == flight,
        flight_of(with_flight(flights, flight), other) == flight_of(flights, other),
{
    let id = flight.item_id;
    lemma_flight_of_id(flights, id);
    lemma_flight_of_id(flights, other);
    let i = flight_place(flights, id) as int;
    if i < flights.len() {
        lemma_place_update(flights, i, flight, id);
        lemma_place_update(flights, i, flight, other);
    } else {
        lemma_place_push(flights, flight, id);
        lemma_place_push(flights, flight, other);
    }
}

/// Of an item that nothing was put down of, nothing is known.
pub proof fn law_unknown_flight(flights: Seq<FlightView>, id: Seq<char>)
    requires
        forall|i: int| 0 <= i < flights.len() ==> (#[trigger] flights[i]).item_id != id,
    ensures
        flight_of(flights, id) == (FlightView { item_id: id, tracks: Seq::empty(), speed: None }),
    decreases flights.len(),
{
    if flights.len() > 0 {
        let rest = flights.skip(1);
        assert(flights[0].item_id != id);
        assert forall|i: int| 0 <= i < rest.len() implies (#[trigger] rest[i]).item_id != id by {
            assert(rest[i] == flights[i + 1]);
        }
        law_unknown_flight(rest, id);
        lemma_flight_of_id(rest, id);
        lemma_not_placed(flights, id);
    }
}

proof fn lemma_not_placed(flights: Seq<FlightView>, id: Seq<char>)
    requires
        forall|i: int| 0 <= i < flights.len() ==> (#[trigger] flights[i]).item_id != id,
    ensures
        flight_place(flights, id) == flights.len(),
    decreases flights.len(),
{
    if flights.len() > 0 {
        let rest = flights.skip(1);
        assert(flights[0].item_id != id);
        assert forall|i: int| 0 <= i < rest.len() implies (#[trigger] rest[i]).item_id != id by {
            assert(rest[i] == flights[i + 1]);
        }
        lemma_not_placed(rest, id);
    }
}

/// What is known of an item that is still in the list is kept as it is.
pub proof fn law_kept(flights: Seq<FlightView>, ids: Seq<String>, i: int)
    requires
        0 <= i < flights.len(),
        listed(ids, flights[i].item_id),
    ensures
        kept_flights(flights, ids).contains(flights[i]),
    decreases flights.len(),
{
    let init = flights.drop_last();
    let kept = kept_flights(flights, ids);
    if i < init.len() {
        law_kept(init, ids, i);
        let before = kept_flights(init, ids);
        let k = choose|k: int| 0 <= k < before.len() && before[k] == flights[i];
        assert(kept[k] == flights[i]);
    } else {
        assert(kept.last() == flights[i]);
    }
}

/// The live bytes start from the stored ones: with no track there twice, each has
/// the bytes that are stored of it, and together they are all that is stored.
pub proof fn law_seeded(tracks: Seq<DownloadTrack>, n: nat)
    requires
        n <= tracks.len(),
        forall|i: int, j: int| 0 <= i < j < tracks.len() ==> (#[trigger] tracks[i]).ino@ != (#[trigger] tracks[j]).ino@,
    ensures
        seeded(tracks, n).len() == n,
        forall|i: int|
            0 <= i < n ==> (#[trigger] seeded(tracks, n)[i]).ino == tracks[i].ino@ && seeded(tracks, n)[i].bytes
                == if tracks[i].bytes_downloaded < 0 {
                0
            } else {
                tracks[i].bytes_downloaded as int
            },
        sum_tracks(seeded(tracks, n)) == sum_stored(tracks.take(n as int)),
    decreases n,
{
    if n == 0 {
        assert(tracks.take(0).len() == 0);
    } else {
        let m = (n - 1) as nat;
        law_seeded(tracks, m);
        let before = seeded(tracks, m);
        let track = tracks[n - 1];
        assert forall|i: int| 0 <= i < before.len() implies (#[trigger] before[i]).ino != track.ino@ by {
            assert(tracks[i].ino@ != tracks[n - 1].ino@);
        }
        lemma_track_place(before, track.ino@);
        let entry = TrackView { ino: track.ino@, bytes: stored_bytes(track) as u64 };
        assert(seeded(tracks, n) == before.push(entry));
        assert(before.push(entry).drop_last() =~= before);
        assert(tracks.take(n as int).drop_last() =~= tracks.take(m as int));
        assert(tracks.take(n as int).last() == track);
    }
}

/// The row of an item has its id and title; in flight it says the bytes of all its
/// tracks, complete or not, and otherwise what is complete.
pub proof fn law_row(screen: DownloadsScreen, found: Seq<FoundItem>, now: u64, i: int)
    requires
        0 <= i < found.len(),
    ensures
        ({
            let row = rows_of(screen, found, now)[i];
            let speed = flight_of(flight_views(screen.flights@), found[i].item_id@).speed;
            &&& rows_of(screen, found, now).len() == found.len()
            &&& row.item_id == found[i].item_id@ && row.title == found[i].title@
            &&& row.cover_path == text_view(found[i].cover_path)
            &&& row.downloading <==> listed(screen.downloading@, found[i].item_id@)
            &&& row.downloading ==> row.subtitle == Some(
                downloading_text(found[i].batch, sum_stored(found[i].tracks@), shown_speed(speed, now)),
            )
            &&& !row.downloading ==> row.subtitle == completed_text(found[i].tracks@)
        }),
{
}

/// Progress of a track is put down for that track of that item, and the speed of
/// the item is sampled with it.
pub proof fn law_progressed(flight: FlightView, ino: Seq<char>, bytes: u64, now: u64)
    ensures
        ({
            let after = progressed(flight, ino, bytes, now);
            &&& after.item_id == flight.item_id
            &&& after.tracks.contains(TrackView { ino, bytes })
            &&& after.speed matches Some(s) && s.last_sample is Some
            &&& flight.speed is None ==> {
                let s = after.speed->0;
                s.ema == whole(0) && s.last_bytes == bytes && s.last_sample == Some(now) && s.last_label == now
            }
            &&& flight.speed matches Some(old) ==> {
                let s = after.speed->0;
                &&& s.ema == sampled(old, bytes, now).ema && s.last_sample == sampled(old, bytes, now).last_sample
                &&& s.last_label == if now >= old.last_label + 200_000_000 {
                    now
                } else {
                    old.last_label
                }
            }
        }),
{
    lemma_track_place(flight.tracks, ino);
    let after = progressed(flight, ino, bytes, now);
    let i = track_place(flight.tracks, ino) as int;
    if i < flight.tracks.len() {
        assert(after.tracks[i] == TrackView { ino, bytes });
    } else {
        assert(after.tracks[flight.tracks.len() as int] == TrackView { ino, bytes });
    }
}

/// Taking a text out of some list followed by another takes it out of both.
pub proof fn law_without_adds_up(a: Seq<String>, b: Seq<String>, id: Seq<char>)
    ensures
        without(a + b, id) == without(a, id) + without(b, id),
    decreases b.len(),
{
    if b.len() == 0 {
        assert(a + b =~= a);
        assert(without(a, id) + without(b, id) =~= without(a, id));
    } else {
        law_without_adds_up(a, b.drop_last(), id);
        assert((a + b).drop_last() =~= a + b.drop_last());
        assert((a + b).last() == b.last());
        assert(without(a + b, id) =~= without(a, id) + without(b, id));
    }
}

/// A list without a text that is not in it is the list.
pub proof fn law_without_nothing(ids: Seq<String>, id: Seq<char>)
    requires
        !listed(ids, id),
    ensures
        without(ids, id) == ids,
    decreases ids.len(),
{
    if ids.len() > 0 {
        let init = ids.drop_last();
        assert(ids =~= init.push(ids.last()));
        lemma_listed_push(init, ids.last(), id);
        law_without_nothing(init, id);
    } else {
        assert(without(ids, id) =~= ids);
    }
}

/// Every item found has its row, in order, under its own name: in flight exactly where
/// it is among those in flight, and then with what is known of its speed.
pub proof fn law_rows(screen: DownloadsScreen, found: Seq<FoundItem>, now: u64, i: int)
    requires
        0 <= i < found.len(),
    ensures
        ({
            let rows = rows_of(screen, found, now);
            &&& rows.len() == found.len()
            &&& rows[i].item_id == found[i].item_id@ && rows[i].title == found[i].title@
            &&& rows[i].downloading <==> exists|k: int|
                0 <= k < screen.downloading.len() && (#[trigger] screen.downloading[k])@ == found[i].item_id@
            &&& has_live_row(rows, found[i].item_id@) <==> rows[i].downloading
        }),
{
    let rows = rows_of(screen, found, now);
    let id = found[i].item_id@;
    if has_live_row(rows, id) {
        let k = choose|k: int| 0 <= k < rows.len() && (#[trigger] rows[k]).item_id == id && rows[k].downloading;
        assert(found[k].item_id@ == id);
    }
    if rows[i].downloading {
        assert(has_live_row(rows, id));
    }
}

/// What is stored of a found item replaces what was known of its tracks, and leaves its
/// speed; what is known of another item stays.
pub proof fn law_seeded_flights(flights: Seq<FlightView>, found: Seq<FoundItem>, n: nat, other: Seq<char>)
    requires
        0 < n <= found.len(),
    ensures
        ({
            let item = found[n - 1];
            let before = seeded_flights(flights, found, (n - 1) as nat);
            let after = seeded_flights(flights, found, n);
            let flight = flight_of(after, item.item_id@);
            &&& flight.item_id == item.item_id@
            &&& flight.tracks == seeded(item.tracks@, item.tracks@.len())
            &&& flight.speed == flight_of(before, item.item_id@).speed
            &&& other != item.item_id@ ==> flight_of(after, other) == flight_of(before, other)
        }),
{
    let item = found[n - 1];
    let before = seeded_flights(flights, found, (n - 1) as nat);
    let flight = FlightView {
        item_id: item.item_id@,
        tracks: seeded(item.tracks@, item.tracks@.len()),
        speed: flight_of(before, item.item_id@).speed,
    };
    if other != item.item_id@ {
        law_with_flight(before, flight, other);
    } else {
        assert(other.push('-').len() != other.len());
        law_with_flight(before, flight, other.push('-'));
    }
}

/// What is kept of some items followed by others is what is kept of the former
/// followed by what is kept of the latter.
pub proof fn law_kept_adds_up(a: Seq<FlightView>, b: Seq<FlightView>, ids: Seq<String>)
    ensures
        kept_flights(a + b, ids) == kept_flights(a, ids) + kept_flights(b, ids),
    decreases b.len(),
{
    if b.len() == 0 {
        assert(a + b =~= a);
        assert(kept_flights(a, ids) + kept_flights(b, ids) =~= kept_flights(a, ids));
    } else {
        law_kept_adds_up(a, b.drop_last(), ids);
        assert((a + b).drop_last() =~= a + b.drop_last());
        assert((a + b).last() == b.last());
        assert(kept_flights(a + b, ids) =~= kept_flights(a, ids) + kept_flights(b, ids));
    }
}

/// What is in flight and not downloaded follows what is downloaded, in its order.
pub proof fn law_row_ids_in_order(downloaded: Seq<String>, downloading: Seq<String>, n: nat)
    requires
        n <= downloading.len(),
        forall|i: int| 0 <= i < n ==> !listed(downloaded, (#[trigger] downloading[i])@),
        forall|i: int, j: int|
            0 <= i < j < downloading.len() ==> (#[trigger] downloading[i])@ != (#[trigger] downloading[j])@,
    ensures
        merged(downloaded, downloading, n) == downloaded + downloading.take(n as int),
    decreases n,
{
    if n == 0 {
        assert(downloaded + downloading.take(0) =~= downloaded);
    } else {
        let m = (n - 1) as nat;
        law_row_ids_in_order(downloaded, downloading, m);
        let (init, x) = (downloaded + downloading.take(m as int), downloading[m as int]);
        if listed(init, x@) {
            let i = choose|i: int| 0 <= i < init.len() && (#[trigger] init[i])@ == x@;
            if i < downloaded.len() {
                assert(downloaded[i]@ == x@);
            } else {
                assert(downloading[i - downloaded.len()]@ == x@);
            }
        }
        assert(init.push(x) =~= downloaded + downloading.take(n as int));
    }
}

} // verus!
