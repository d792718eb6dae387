//! The rows that the screens show, as plain values.
use crate::double::{one, tenths_text, whole, Double};
use crate::reading::{ends_with, is_decimal, law_share_tenths, lemma_end, tenths_in, without_end};
use crate::rounding::within;
use vstd::arithmetic::power2::{lemma2_to64, lemma_pow2_strictly_increases};
use vstd::prelude::*;

verus! {

/// A point in time: whole seconds since the epoch, and the nanoseconds after them.
#[derive(Clone, Copy, Debug, PartialEq, Eq, Structural)]
pub struct Timestamp {
    pub seconds: i64,
    pub nanos: u32,
}

/// A library of a server.
#[derive(Clone, Debug)]
pub struct Library {
    pub id: String,
    pub name: String,
    pub media_type: String,
}

/// A book or podcast.
#[derive(Clone, Debug)]
pub struct Item {
    pub id: String,
    pub title: String,
    pub author: Option<String>,
    pub narrator: Option<String>,
    pub description: Option<String>,
    pub series_name: Option<String>,
    pub genres: Vec<String>,
    pub duration: Double,
    pub added_at: Timestamp,
    pub cover_path: Option<String>,
    /// The title and the author, normalised the way a search query is.
    pub search_title: String,
    pub search_author: Option<String>,
}

/// How far an account has listened to an item.
#[derive(Clone, Debug)]
pub struct Progress {
    pub item_id: String,
    pub current_time: Double,
    pub is_finished: bool,
    pub updated_at: Timestamp,
}

/// Whether a text is in a list.
pub open spec fn listed(ids: Seq<String>, id: Seq<char>) -> bool {
    exists|i: int| 0 <= i < ids.len() && #[trigger] ids[i]@ == id
}

/// Whether a text is in a list.
pub fn is_listed(ids: &Vec<String>, id: &String) -> (r: bool)
    ensures
        r == listed(ids@, id@),
{
    let mut i: usize = 0;
    while i < ids.len()
        invariant
            i <= ids.len(),
            forall|k: int| 0 <= k < i ==> #[trigger] ids[k]@ != id@,
        decreases ids.len() - i,
    {
        if ids[i] == *id {
            return true;
        }
        i = i + 1;
    }
    false
}

/// A list with one more text holds that text besides.
pub proof fn lemma_listed_push(v: Seq<String>, x: String, g: Seq<char>)
    ensures
        listed(v.push(x), g) == (listed(v, g) || x@ == g),
{
    let w = v.push(x);
    if listed(v, g) {
        let i = choose|i: int| 0 <= i < v.len() && #[trigger] v[i]@ == g;
        assert(w[i]@ == g);
    }
    if x@ == g {
        assert(w[v.len() as int]@ == g);
    }
    if listed(w, g) {
        let i = choose|i: int| 0 <= i < w.len() && #[trigger] w[i]@ == g;
        if i < v.len() {
            assert(v[i]@ == g);
        }
    }
}

/// The progress of an item: the latest row of the list that is about it.
pub open spec fn progress_of(rows: Seq<Progress>, id: Seq<char>) -> Option<Progress>
    decreases rows.len(),
{
    if rows.len() == 0 {
        None
    } else if rows.last().item_id@ == id {
        Some(rows.last())
    } else {
        progress_of(rows.drop_last(), id)
    }
}

/// The progress of an item is the last of the rows about it; with no row about it
/// there is none.
pub proof fn law_progress_of(rows: Seq<Progress>, id: Seq<char>)
    ensures
        progress_of(rows, id) is None <==> forall|i: int| 0 <= i < rows.len() ==> (#[trigger] rows[i]).item_id@ != id,
        forall|i: int|
            0 <= i < rows.len() && (#[trigger] rows[i]).item_id@ == id && (forall|k: int|
                i < k < rows.len() ==> (#[trigger] rows[k]).item_id@ != id) ==> progress_of(rows, id) == Some(rows[i]),
        progress_of(rows, id) matches Some(p) ==> p.item_id@ == id,
    decreases rows.len(),
{
    if rows.len() > 0 {
        let init = rows.drop_last();
        law_progress_of(init, id);
        let last = rows.len() - 1;
        assert(rows.last() == rows[last]);
        assert forall|i: int| 0 <= i < init.len() implies init[i] == rows[i] by {}
        if rows.last().item_id@ != id {
            assert forall|i: int|
                0 <= i < rows.len() && (#[trigger] rows[i]).item_id@ == id && (forall|k: int|
                    i < k < rows.len() ==> (#[trigger] rows[k]).item_id@ != id) implies progress_of(rows, id) == Some(
                rows[i],
            ) by {
                assert(init[i].item_id@ == id);
                assert forall|k: int| i < k < init.len() implies (#[trigger] init[k]).item_id@ != id by {
                    assert(rows[k].item_id@ != id);
                }
            }
            if progress_of(init, id) is None {
                assert forall|i: int| 0 <= i < rows.len() implies (#[trigger] rows[i]).item_id@ != id by {
                    if i < init.len() {
                        assert(init[i].item_id@ != id);
                    }
                }
            }
            if forall|i: int| 0 <= i < rows.len() ==> (#[trigger] rows[i]).item_id@ != id {
                assert forall|i: int| 0 <= i < init.len() implies (#[trigger] init[i]).item_id@ != id by {
                    assert(rows[i].item_id@ != id);
                }
            }
        }
    }
}

/// The progress of an item.
pub fn find_progress<'a>(rows: &'a Vec<Progress>, id: &String) -> (r: Option<&'a Progress>)
    ensures
        match r {
            Some(p) => progress_of(rows@, id@) == Some(*p),
            None => progress_of(rows@, id@) is None,
        },
{
    let mut i: usize = rows.len();
    assert(rows@.take(i as int) =~= rows@);
    while i > 0
        invariant
            i <= rows.len(),
            progress_of(rows@.take(i as int), id@) == progress_of(rows@, id@),
        decreases i,
    {
        i = i - 1;
        assert(rows@.take(i + 1).last() == rows[i as int]);
        assert(rows@.take(i + 1).drop_last() =~= rows@.take(i as int));
        if rows[i].item_id == *id {
            return Some(&rows[i]);
        }
    }
    None
}

/// What starts the playback of an item.
#[derive(Clone, Debug)]
pub struct PlayRequest {
    pub item_id: String,
    pub title: String,
    pub author: Option<String>,
}

/// What starts the playback of an item.
pub fn play_request(item: &Item) -> (r: PlayRequest)
    ensures
        r.item_id == item.id,
        r.title == item.title,
        r.author == item.author,
{
    let author = match &item.author {
        Some(author) => Some(author.clone()),
        None => None,
    };
    PlayRequest { item_id: item.id.clone(), title: item.title.clone(), author }
}

/// The author of an item, or the words for an unknown one.
pub open spec fn author_text(item: Item) -> Seq<char> {
    match item.author {
        Some(author) => author@,
        None => "Unknown author"@,
    }
}

/// The author of an item, or the words for an unknown one.
pub fn author_or_unknown(item: &Item) -> (r: String)
    ensures
        r@ == author_text(*item),
{
    match &item.author {
        Some(author) => author.clone(),
        None => String::from_str("Unknown author"),
    }
}

/// The author and the length of an item in hours.
pub open spec fn subtitle(item: Item) -> Seq<char> {
    author_text(item) + " · "@ + tenths_text(item.duration@.over(whole(3600))) + "h"@
}

/// The text below an item names its author, and then its length in hours, which
/// reads back as the length to the nearest tenth.
pub proof fn law_subtitle(item: Item)
    requires
        !item.duration@.nan && !item.duration@.neg && !item.duration@.is_infinite(),
    ensures
        ({
            let head = (match item.author {
                Some(author) => author@,
                None => "Unknown author"@,
            }) + " · "@;
            let text = subtitle(item);
            let hours = without_end(text, "h"@).skip(head.len() as int);
            &&& ends_with(text, "h"@) && text == head + hours + "h"@
            &&& is_decimal(hours) && within(tenths_in(hours), 3600 * one(), 10 * item.duration@.mag)
        }),
{
    let head = (match item.author {
        Some(author) => author@,
        None => "Unknown author"@,
    }) + " · "@;
    let hours = tenths_text(item.duration@.over(whole(3600)));
    lemma2_to64();
    lemma_pow2_strictly_increases(32, 53);
    law_share_tenths(item.duration@, 3600);
    lemma_end(head + hours, "h"@);
    assert((head + hours).skip(head.len() as int) =~= hours);
}

/// The author and the length of an item in hours.
pub fn item_subtitle(item: &Item) -> (r: String)
    ensures
        r@ == subtitle(*item),
{
    let hours = item.duration.over(Double::from_u64(3600)).tenths_text();
    author_or_unknown(item).concat(" · ").concat(hours.as_str()).concat("h")
}

} // verus!
