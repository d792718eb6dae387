//! What the Library tab shows, and in which order.
use crate::double::{law_total_key, total_key};
use crate::models::{find_progress, is_listed, lemma_listed_push, listed, progress_of, Item, Progress, Timestamp};
use crate::ordering::{
    before, ints, key_list, lemma_before_irreflexive, lemma_lex_irreflexive, lemma_lex_transitive,
    lemma_order_complete, lemma_sorted_unique, lex_less, order_of, sorted_within, stable_order,
};
use crate::text::{chars_of, contains, occurs, occurs_at};
use vstd::prelude::*;

verus! {

/// What `str::to_lowercase` makes of a text.
pub uninterp spec fn lowercase(s: Seq<char>) -> Seq<char>;

/// `str::to_lowercase` maps a text to its lower case by the Unicode tables of
/// std, whatever the locale. The result is named, not described.
pub assume_specification[ str::to_lowercase ](s: &str) -> (r: String)
    ensures
        r@ == lowercase(s@),
;

/// The orders that the list can be in.
#[derive(Clone, Copy, Debug, PartialEq, Eq, Structural)]
pub enum SortKey {
    DateAdded,
    Title,
    Author,
    Duration,
    /// Played items first, the last played first; never played ones after them.
    LastListened,
}

/// The stored form of an order.
#[derive(Clone, Copy, Debug, PartialEq, Eq, Structural)]
pub enum SortBy {
    DateOfCreation,
    Title,
    Author,
    Duration,
    LastListened,
}

/// The sections that the list can be cut into.
#[derive(Clone, Copy, Debug, PartialEq, Eq, Structural)]
pub enum Grouping {
    Ungrouped,
    BySeries,
    ByAuthor,
}

/// The category that narrows the list.
#[derive(Clone, Debug)]
pub enum CategoryFilter {
    All,
    Author,
    Series,
    Genre(String),
    OneSeries(String),
}

/// Everything that is loaded for the tab.
#[derive(Clone, Debug)]
pub struct LibraryData {
    pub items: Vec<Item>,
    /// The ids of the items that are downloaded, in whole or in part.
    pub downloaded: Vec<String>,
    /// The progress rows of the account.
    pub last_listened: Vec<Progress>,
}

/// What the list is narrowed to, and how it is ordered.
#[derive(Clone, Debug)]
pub struct LibraryView {
    /// The search text, normalised.
    pub query: String,
    pub offline: bool,
    pub in_progress_only: bool,
    pub hide_finished: bool,
    pub category: CategoryFilter,
    pub sort: SortKey,
    pub grouping: Grouping,
}

/// The lower-case texts that an item is ordered by.
#[derive(Clone, Debug)]
pub struct Lowered {
    pub title: String,
    pub author: String,
    pub group: String,
}

/// The lower-case texts that an item is ordered by.
pub struct LoweredText {
    pub title: Seq<char>,
    pub author: Seq<char>,
    pub group: Seq<char>,
}

impl View for Lowered {
    type V = LoweredText;

    open spec fn view(&self) -> LoweredText {
        LoweredText { title: self.title@, author: self.author@, group: self.group@ }
    }
}

/// The lower-case texts of a list.
pub open spec fn texts(low: Seq<Lowered>) -> Seq<LoweredText> {
    low.map_values(|l: Lowered| l@)
}

/// The section that an item falls into.
#[derive(Clone, Debug)]
pub enum GroupKey {
    Named(String),
    /// The section of the items without the name in question.
    Fallback(String),
}

/// The section that an item falls into.
pub struct GroupName {
    pub fallback: bool,
    pub label: Seq<char>,
}

impl View for GroupKey {
    type V = GroupName;

    open spec fn view(&self) -> GroupName {
        match self {
            GroupKey::Named(s) => GroupName { fallback: false, label: s@ },
            GroupKey::Fallback(s) => GroupName { fallback: true, label: s@ },
        }
    }
}

impl SortKey {
    pub open spec fn of(sort_by: SortBy) -> SortKey {
        match sort_by {
            SortBy::DateOfCreation => SortKey::DateAdded,
            SortBy::Title => SortKey::Title,
            SortBy::Author => SortKey::Author,
            SortBy::Duration => SortKey::Duration,
            SortBy::LastListened => SortKey::LastListened,
        }
    }

    pub open spec fn stored(self) -> SortBy {
        match self {
            SortKey::DateAdded => SortBy::DateOfCreation,
            SortKey::Title => SortBy::Title,
            SortKey::Author => SortBy::Author,
            SortKey::Duration => SortBy::Duration,
            SortKey::LastListened => SortBy::LastListened,
        }
    }

    /// The order of a stored one.
    pub fn from_sort_by(sort_by: SortBy) -> (r: SortKey)
        ensures
            r == SortKey::of(sort_by),
    {
        match sort_by {
            SortBy::DateOfCreation => SortKey::DateAdded,
            SortBy::Title => SortKey::Title,
            SortBy::Author => SortKey::Author,
            SortBy::Duration => SortKey::Duration,
            SortBy::LastListened => SortKey::LastListened,
        }
    }

    /// The stored form of this order.
    pub fn to_sort_by(self) -> (r: SortBy)
        ensures
            r == self.stored(),
    {
        match self {
            SortKey::DateAdded => SortBy::DateOfCreation,
            SortKey::Title => SortBy::Title,
            SortKey::Author => SortBy::Author,
            SortKey::Duration => SortBy::Duration,
            SortKey::LastListened => SortBy::LastListened,
        }
    }
}

/// Orders and stored orders correspond one to one.
pub proof fn law_sort_key_bijection(key: SortKey, stored: SortBy)
    ensures
        SortKey::of(key.stored()) == key,
        SortKey::of(stored).stored() == stored,
{
}

/// The section of an item.
pub open spec fn group_of(item: Item, grouping: Grouping) -> GroupName {
    match grouping {
        Grouping::Ungrouped => GroupName { fallback: false, label: Seq::empty() },
        Grouping::ByAuthor => match item.author {
            Some(author) => GroupName { fallback: false, label: author@ },
            None => GroupName { fallback: true, label: "Unknown author"@ },
        },
        Grouping::BySeries => match item.series_name {
            Some(series) => GroupName { fallback: false, label: series@ },
            None => GroupName { fallback: true, label: "Other"@ },
        },
    }
}

/// The section of an item.
pub fn group_key_for(item: &Item, grouping: Grouping) -> (r: GroupKey)
    ensures
        r@ == group_of(*item, grouping),
{
    match grouping {
        Grouping::Ungrouped => GroupKey::Named(String::new()),
        Grouping::ByAuthor => match &item.author {
            Some(author) => GroupKey::Named(author.clone()),
            None => GroupKey::Fallback(String::from_str("Unknown author")),
        },
        Grouping::BySeries => match &item.series_name {
            Some(series) => GroupKey::Named(series.clone()),
            None => GroupKey::Fallback(String::from_str("Other")),
        },
    }
}

impl GroupKey {
    /// The heading of the section.
    pub fn label(&self) -> (r: &str)
        ensures
            r@ == self@.label,
    {
        match self {
            GroupKey::Named(s) => s.as_str(),
            GroupKey::Fallback(s) => s.as_str(),
        }
    }

    /// Whether the section is that of the items without a name.
    pub fn is_fallback(&self) -> (r: bool)
        ensures
            r == self@.fallback,
    {
        match self {
            GroupKey::Named(_) => false,
            GroupKey::Fallback(_) => true,
        }
    }

    /// Whether two sections are the same.
    pub fn same(&self, other: &GroupKey) -> (r: bool)
        ensures
            r == (self@ == other@),
    {
        match (self, other) {
            (GroupKey::Named(a), GroupKey::Named(b)) => *a == *b,
            (GroupKey::Fallback(a), GroupKey::Fallback(b)) => *a == *b,
            _ => false,
        }
    }
}

/// Whether an item matches the search text.
pub open spec fn matches_query(item: Item, query: Seq<char>) -> bool {
    ||| query.len() == 0
    ||| occurs(item.search_title@, query)
    ||| match item.search_author {
        Some(author) => occurs(author@, query),
        None => false,
    }
}

/// Whether an item is in the category.
pub open spec fn in_category(item: Item, category: CategoryFilter) -> bool {
    match category {
        CategoryFilter::Genre(genre) => listed(item.genres@, genre@),
        CategoryFilter::OneSeries(name) => match item.series_name {
            Some(series) => series@ == name@,
            None => false,
        },
        _ => true,
    }
}

/// Whether an item has been started and not finished.
pub open spec fn in_progress(data: LibraryData, item: Item) -> bool {
    match progress_of(data.last_listened@, item.id@) {
        Some(p) => !p.is_finished,
        None => false,
    }
}

/// Whether an item has been finished.
pub open spec fn finished(data: LibraryData, item: Item) -> bool {
    match progress_of(data.last_listened@, item.id@) {
        Some(p) => p.is_finished,
        None => false,
    }
}

/// Whether the list shows an item.
pub open spec fn shows(data: LibraryData, view: LibraryView, item: Item) -> bool {
    &&& matches_query(item, view.query@)
    &&& view.offline ==> listed(data.downloaded@, item.id@)
    &&& view.in_progress_only ==> in_progress(data, item)
    &&& view.hide_finished ==> !finished(data, item)
    &&& in_category(item, view.category)
}

/// Whether the list shows an item.
pub fn is_shown(data: &LibraryData, view: &LibraryView, item: &Item) -> (r: bool)
    ensures
        r == shows(*data, *view, *item),
{
    let matched: bool = view.query.as_str().is_empty() || contains(
        item.search_title.as_str(),
        view.query.as_str(),
    ) || match &item.search_author {
        Some(author) => contains(author.as_str(), view.query.as_str()),
        None => false,
    };
    if !matched {
        return false;
    }
    if view.offline && !is_listed(&data.downloaded, &item.id) {
        return false;
    }
    let (started, done) = match find_progress(&data.last_listened, &item.id) {
        Some(p) => (!p.is_finished, p.is_finished),
        None => (false, false),
    };
    if view.in_progress_only && !started {
        return false;
    }
    if view.hide_finished && done {
        return false;
    }
    match &view.category {
        CategoryFilter::Genre(genre) => is_listed(&item.genres, genre),
        CategoryFilter::OneSeries(name) => match &item.series_name {
            Some(series) => *series == *name,
            None => false,
        },
        _ => true,
    }
}

/// The code points of a text, by which texts are ordered.
pub open spec fn codes(s: Seq<char>) -> Seq<int> {
    s.map_values(|c: char| c as u32 as int)
}

/// A key by which the latest time comes first.
pub open spec fn newest_first(t: Timestamp) -> Seq<int> {
    seq![-1 - t.seconds as int, -1 - t.nanos as int]
}

/// The key by which an order lists an item.
pub open spec fn sort_key(sort: SortKey, item: Item, low: LoweredText, progress: Option<Progress>) -> Seq<int> {
    match sort {
        SortKey::DateAdded => newest_first(item.added_at),
        SortKey::Title => codes(low.title),
        SortKey::Author => codes(low.author),
        SortKey::Duration => seq![-1 - total_key(item.duration.bits)],
        SortKey::LastListened => match progress {
            Some(p) => seq![0int] + newest_first(p.updated_at),
            None => seq![1int],
        },
    }
}

/// The key by which sections follow each other: named ones by their lower-case
/// names, then the section of the items without a name. Names that differ only
/// in case follow each other by the names themselves.
pub open spec fn group_rank(grouping: Grouping, item: Item, low: LoweredText) -> Seq<int> {
    if grouping == Grouping::Ungrouped {
        Seq::empty()
    } else {
        let name = group_of(item, grouping);
        let first: int = if name.fallback {
            1
        } else {
            0
        };
        seq![first] + codes(low.group) + seq![-1int] + codes(name.label)
    }
}

/// Whether the list has item `x` before item `y`: by section, then by the
/// chosen order, then as they were loaded.
pub open spec fn comes_before(data: LibraryData, view: LibraryView, low: Seq<LoweredText>, x: int, y: int) -> bool {
    let (a, b) = (data.items[x], data.items[y]);
    let (ra, rb) = (group_rank(view.grouping, a, low[x]), group_rank(view.grouping, b, low[y]));
    let ka = sort_key(view.sort, a, low[x], progress_of(data.last_listened@, a.id@));
    let kb = sort_key(view.sort, b, low[y], progress_of(data.last_listened@, b.id@));
    lex_less(ra, rb) || (ra == rb && (lex_less(ka, kb) || (ka == kb && x < y)))
}

/// Whether `list` holds the positions of exactly the items that are shown, in order.
pub open spec fn arranged(data: LibraryData, view: LibraryView, low: Seq<LoweredText>, list: Seq<usize>) -> bool {
    &&& forall|i: int|
        0 <= i < list.len() ==> (#[trigger] list[i]) < data.items.len() && shows(
            data,
            view,
            data.items[list[i] as int],
        )
    &&& forall|x: int|
        0 <= x < data.items.len() && shows(data, view, #[trigger] data.items[x]) ==> exists|i: int|
            0 <= i < list.len() && list[i] == x
    &&& forall|i: int, j: int|
        0 <= i < j < list.len() ==> comes_before(
            data,
            view,
            low,
            #[trigger] list[i] as int,
            #[trigger] list[j] as int,
        )
}

/// The lower-case texts of the items.
pub open spec fn lowered_texts(data: LibraryData, view: LibraryView) -> Seq<LoweredText> {
    Seq::new(
        data.items@.len(),
        |i: int|
            LoweredText {
                title: lowercase(data.items[i].title@),
                author: lowercase(
                    match data.items[i].author {
                        Some(author) => author@,
                        None => ""@,
                    },
                ),
                group: lowercase(group_of(data.items[i], view.grouping).label),
            },
    )
}

/// Two keys one after the other, with a mark between them that is less than
/// anything in the first, order like the pair of them.
proof fn lemma_paired_keys(mark: int, ra: Seq<int>, ka: Seq<int>, rb: Seq<int>, kb: Seq<int>)
    requires
        forall|i: int| 0 <= i < ra.len() ==> ra[i] > mark,
        forall|i: int| 0 <= i < rb.len() ==> rb[i] > mark,
    ensures
        lex_less(ra + seq![mark] + ka, rb + seq![mark] + kb) == (lex_less(ra, rb) || (ra == rb && lex_less(ka, kb))),
        ra + seq![mark] + ka == rb + seq![mark] + kb ==> ra == rb && ka == kb,
    decreases ra.len(),
{
    let a = ra + seq![mark] + ka;
    let b = rb + seq![mark] + kb;
    if ra.len() > 0 && rb.len() > 0 {
        assert(a.skip(1) =~= ra.skip(1) + seq![mark] + ka);
        assert(b.skip(1) =~= rb.skip(1) + seq![mark] + kb);
        lemma_paired_keys(mark, ra.skip(1), ka, rb.skip(1), kb);
        assert(ra == rb <==> ra[0] == rb[0] && ra.skip(1) == rb.skip(1)) by {
            assert(ra =~= seq![ra[0]] + ra.skip(1));
            assert(rb =~= seq![rb[0]] + rb.skip(1));
        }
        assert(a[0] == ra[0] && b[0] == rb[0]);
    } else if ra.len() == 0 && rb.len() == 0 {
        assert(a.skip(1) =~= ka);
        assert(b.skip(1) =~= kb);
        assert(ra =~= rb);
        assert(a[0] == mark && b[0] == mark);
    } else if ra.len() == 0 {
        assert(a[0] == mark && b[0] == rb[0]);
    } else {
        assert(a[0] == ra[0] && b[0] == mark);
    }
}

/// A section rank is its first number, then the lower-case name, then the name.
proof fn lemma_ranks(grouping: Grouping, a: Item, la: LoweredText, b: Item, lb: LoweredText)
    requires
        grouping != Grouping::Ungrouped,
    ensures
        ({
            let (ra, rb) = (group_rank(grouping, a, la), group_rank(grouping, b, lb));
            let (na, nb) = (group_of(a, grouping), group_of(b, grouping));
            let (ca, cb) = (codes(la.group), codes(lb.group));
            &&& ra.len() > 0 && ra[0] == if na.fallback {
                1int
            } else {
                0int
            }
            &&& rb.len() > 0 && rb[0] == if nb.fallback {
                1int
            } else {
                0int
            }
            &&& ra[0] == rb[0] ==> lex_less(ra, rb) == (lex_less(ca, cb) || (ca == cb && lex_less(
                codes(na.label),
                codes(nb.label),
            )))
            &&& ra == rb ==> ca == cb && na == nb
        }),
{
    let (ra, rb) = (group_rank(grouping, a, la), group_rank(grouping, b, lb));
    let (na, nb) = (group_of(a, grouping), group_of(b, grouping));
    let (ca, cb) = (codes(la.group), codes(lb.group));
    assert(ra.skip(1) =~= ca + seq![-1int] + codes(na.label));
    assert(rb.skip(1) =~= cb + seq![-1int] + codes(nb.label));
    lemma_paired_keys(-1, ca, codes(na.label), cb, codes(nb.label));
    lemma_codes_injective(na.label, nb.label);
}

/// Everything in a section rank is above the mark that ends it.
proof fn lemma_rank_above(grouping: Grouping, item: Item, low: LoweredText)
    ensures
        forall|i: int|
            0 <= i < group_rank(grouping, item, low).len() ==> group_rank(grouping, item, low)[i] > -2,
{
    let label = codes(group_of(item, grouping).label);
    let name = codes(low.group);
    assert(forall|i: int| 0 <= i < label.len() ==> label[i] >= 0);
    assert(forall|i: int| 0 <= i < name.len() ==> name[i] >= 0);
}

fn push_codes(key: &mut Vec<i64>, s: &str)
    ensures
        ints(final(key)@) == ints(old(key)@) + codes(s@),
{
    let v = chars_of(s);
    let mut i: usize = 0;
    assert(ints(key@) =~= ints(old(key)@) + codes(s@.take(0)));
    while i < v.len()
        invariant
            i <= v.len(),
            v@ == s@,
            ints(key@) == ints(old(key)@) + codes(s@.take(i as int)),
        decreases v.len() - i,
    {
        let ghost before = key@;
        let c: char = v[i];
        let code: u32 = c as u32;
        key.push(code as i64);
        i = i + 1;
        assert(ints(key@) =~= ints(before).push(c as u32 as int));
        assert(codes(s@.take(i as int)) =~= codes(s@.take(i - 1)).push(c as u32 as int));
        assert(ints(key@) =~= ints(old(key)@) + codes(s@.take(i as int)));
    }
    assert(s@.take(s@.len() as int) =~= s@);
}

fn push_newest_first(key: &mut Vec<i64>, t: Timestamp)
    ensures
        ints(final(key)@) == ints(old(key)@) + newest_first(t),
{
    key.push(-1 - t.seconds);
    key.push(-1 - t.nanos as i64);
    assert(ints(key@) =~= ints(old(key)@) + newest_first(t));
}

/// The key that a position of the list is ordered by.
fn arrangement_key(data: &LibraryData, view: &LibraryView, item: &Item, low: &Lowered) -> (key: Vec<i64>)
    ensures
        ints(key@) == group_rank(view.grouping, *item, low@) + seq![-2int] + sort_key(
            view.sort,
            *item,
            low@,
            progress_of(data.last_listened@, item.id@),
        ),
{
    let mut key: Vec<i64> = Vec::new();
    if view.grouping != Grouping::Ungrouped {
        let group = group_key_for(item, view.grouping);
        let fallback: bool = group.is_fallback();
        key.push(
            if fallback {
                1
            } else {
                0
            },
        );
        assert(ints(key@) =~= seq![if fallback { 1int } else { 0int }]);
        push_codes(&mut key, low.group.as_str());
        let ghost named = ints(key@);
        key.push(-1);
        assert(ints(key@) =~= named + seq![-1int]);
        push_codes(&mut key, group.label());
    }
    assert(ints(key@) =~= group_rank(view.grouping, *item, low@));
    key.push(-2);
    let ghost head = ints(key@);
    assert(head =~= group_rank(view.grouping, *item, low@) + seq![-2int]);
    match view.sort {
        SortKey::DateAdded => push_newest_first(&mut key, item.added_at),
        SortKey::Title => push_codes(&mut key, low.title.as_str()),
        SortKey::Author => push_codes(&mut key, low.author.as_str()),
        SortKey::Duration => {
            key.push(-1 - item.duration.total_key());
            assert(ints(key@) =~= head + seq![-1 - total_key(item.duration.bits)]);
        },
        SortKey::LastListened => match find_progress(&data.last_listened, &item.id) {
            Some(p) => {
                key.push(0);
                assert(ints(key@) =~= head + seq![0int]);
                push_newest_first(&mut key, p.updated_at);
                assert(ints(key@) =~= head + (seq![0int] + newest_first(p.updated_at)));
            },
            None => {
                key.push(1);
                assert(ints(key@) =~= head + seq![1int]);
            },
        },
    }
    key
}

/// The positions of the items that are shown, as they were loaded.
fn shown_positions(data: &LibraryData, view: &LibraryView) -> (list: Vec<usize>)
    ensures
        forall|i: int|
            0 <= i < list.len() ==> (#[trigger] list[i]) < data.items.len() && shows(
                *data,
                *view,
                data.items[list[i] as int],
            ),
        forall|x: int|
            0 <= x < data.items.len() && shows(*data, *view, #[trigger] data.items[x]) ==> exists|i: int|
                0 <= i < list.len() && list[i] == x,
        forall|i: int, j: int| 0 <= i < j < list.len() ==> list[i] < list[j],
{
    let mut list: Vec<usize> = Vec::new();
    let mut n: usize = 0;
    while n < data.items.len()
        invariant
            n <= data.items.len(),
            forall|i: int|
                0 <= i < list.len() ==> (#[trigger] list[i]) < n && shows(*data, *view, data.items[list[i] as int]),
            forall|x: int|
                0 <= x < n && shows(*data, *view, #[trigger] data.items[x]) ==> exists|i: int|
                    0 <= i < list.len() && list[i] == x,
            forall|i: int, j: int| 0 <= i < j < list.len() ==> list[i] < list[j],
        decreases data.items.len() - n,
    {
        if is_shown(data, view, &data.items[n]) {
            let ghost before = list@;
            list.push(n);
            proof {
                assert forall|x: int| 0 <= x < n + 1 && shows(*data, *view, #[trigger] data.items[x]) implies exists|
                    i: int,
                |
                    0 <= i < list.len() && list[i] == x by {
                    if x < n {
                        let i = choose|i: int| 0 <= i < before.len() && before[i] == x;
                        assert(list[i] == x);
                    } else {
                        assert(list[list.len() - 1] == x);
                    }
                }
            }
        }
        n = n + 1;
    }
    list
}

/// The positions of the items that are shown, in order, given the lower-case
/// texts of the items.
pub fn arrange(data: &LibraryData, view: &LibraryView, low: &Vec<Lowered>) -> (list: Vec<usize>)
    requires
        low.len() == data.items.len(),
    ensures
        arranged(*data, *view, texts(low@), list@),
{
    let positions = shown_positions(data, view);
    let mut keys: Vec<Vec<i64>> = Vec::new();
    let mut n: usize = 0;
    while n < positions.len()
        invariant
            n <= positions.len(),
            keys.len() == n,
            low.len() == data.items.len(),
            forall|i: int| 0 <= i < positions.len() ==> (#[trigger] positions[i]) < data.items.len(),
            forall|i: int| #![trigger keys[i]] 0 <= i < n ==> ints(keys[i]@) == position_key(*data, *view, texts(low@), positions[i] as int),
        decreases positions.len() - n,
    {
        let x: usize = positions[n];
        keys.push(arrangement_key(data, view, &data.items[x], &low[x]));
        n = n + 1;
    }
    let order = order_of(&keys);
    let mut list: Vec<usize> = Vec::new();
    let mut m: usize = 0;
    while m < order.len()
        invariant
            m <= order.len(),
            order.len() == positions.len(),
            list.len() == m,
            forall|i: int| 0 <= i < order.len() ==> (#[trigger] order[i]) < positions.len(),
            forall|i: int| 0 <= i < m ==> #[trigger] list[i] == positions[order[i] as int],
        decreases order.len() - m,
    {
        list.push(positions[order[m]]);
        m = m + 1;
    }
    proof {
        let ks = key_list(keys@);
        let lows = texts(low@);
        assert forall|i: int, j: int| 0 <= i < j < list.len() implies comes_before(
            *data,
            *view,
            lows,
            #[trigger] list[i] as int,
            #[trigger] list[j] as int,
        ) by {
            let (a, b) = (order[i] as int, order[j] as int);
            let (x, y) = (positions[a] as int, positions[b] as int);
            assert(before(ks, a, b));
            assert(ks[a] == position_key(*data, *view, lows, x));
            assert(ks[b] == position_key(*data, *view, lows, y));
            lemma_position_keys(*data, *view, lows, x, y);
        }
        assert forall|x: int| 0 <= x < data.items.len() && shows(*data, *view, #[trigger] data.items[x]) implies exists|
            i: int,
        |
            0 <= i < list.len() && list[i] == x by {
            let a = choose|a: int| 0 <= a < positions.len() && positions[a] == x;
            lemma_order_complete(ks, order@, a);
            let i = choose|i: int| 0 <= i < order.len() && order[i] == a;
            assert(list[i] == x);
        }
    }
    list
}

/// Position keys order like sections and sort keys do.
proof fn lemma_position_keys(data: LibraryData, view: LibraryView, low: Seq<LoweredText>, x: int, y: int)
    ensures
        lex_less(position_key(data, view, low, x), position_key(data, view, low, y)) ==> comes_before(
            data,
            view,
            low,
            x,
            y,
        ),
        position_key(data, view, low, x) == position_key(data, view, low, y) && x < y ==> comes_before(
            data,
            view,
            low,
            x,
            y,
        ),
{
    let (a, b) = (data.items[x], data.items[y]);
    let (ra, rb) = (group_rank(view.grouping, a, low[x]), group_rank(view.grouping, b, low[y]));
    let ka = sort_key(view.sort, a, low[x], progress_of(data.last_listened@, a.id@));
    let kb = sort_key(view.sort, b, low[y], progress_of(data.last_listened@, b.id@));
    lemma_rank_above(view.grouping, a, low[x]);
    lemma_rank_above(view.grouping, b, low[y]);
    lemma_paired_keys(-2, ra, ka, rb, kb);
}

/// The key that a position of the list is ordered by.
spec fn position_key(data: LibraryData, view: LibraryView, low: Seq<LoweredText>, x: int) -> Seq<int> {
    let item = data.items[x];
    group_rank(view.grouping, item, low[x]) + seq![-2int] + sort_key(
        view.sort,
        item,
        low[x],
        progress_of(data.last_listened@, item.id@),
    )
}

/// The lower-case texts of an item.
fn lower(item: &Item, grouping: Grouping) -> (r: Lowered)
    ensures
        r.title@ == lowercase(item.title@),
        r.author@ == lowercase(
            match item.author {
                Some(author) => author@,
                None => ""@,
            },
        ),
        r.group@ == lowercase(group_of(*item, grouping).label),
{
    let author = match &item.author {
        Some(author) => author.as_str().to_lowercase(),
        None => "".to_lowercase(),
    };
    Lowered {
        title: item.title.as_str().to_lowercase(),
        author,
        group: group_key_for(item, grouping).label().to_lowercase(),
    }
}

/// The positions of the items that are shown, in order.
pub fn visible_order(data: &LibraryData, view: &LibraryView) -> (list: Vec<usize>)
    ensures
        arranged(*data, *view, lowered_texts(*data, *view), list@),
{
    let mut low: Vec<Lowered> = Vec::new();
    let mut n: usize = 0;
    let ghost whole = lowered_texts(*data, *view);
    while n < data.items.len()
        invariant
            n <= data.items.len(),
            low.len() == n,
            whole == lowered_texts(*data, *view),
            forall|i: int| 0 <= i < n ==> (#[trigger] low[i])@ == whole[i],
        decreases data.items.len() - n,
    {
        low.push(lower(&data.items[n], view.grouping));
        n = n + 1;
    }
    assert(texts(low@) =~= whole);
    arrange(data, view, &low)
}

/// A section of the list.
#[derive(Clone, Debug)]
pub struct Section {
    pub key: GroupKey,
    /// The positions of its items.
    pub positions: Vec<usize>,
}

/// A section of the list.
pub struct SectionView {
    pub key: GroupName,
    pub positions: Seq<usize>,
}

impl View for Section {
    type V = SectionView;

    open spec fn view(&self) -> SectionView {
        SectionView { key: self.key@, positions: self.positions@ }
    }
}

/// The sections of a list.
pub open spec fn section_views(sections: Seq<Section>) -> Seq<SectionView> {
    sections.map_values(|s: Section| s@)
}

/// The list, cut where the section changes; uncut where there is no grouping.
pub open spec fn sections_of(data: LibraryData, grouping: Grouping, list: Seq<usize>) -> Seq<SectionView>
    decreases list.len(),
{
    if list.len() == 0 {
        Seq::empty()
    } else {
        let init = sections_of(data, grouping, list.drop_last());
        let key = group_of(data.items[list.last() as int], grouping);
        if init.len() > 0 && (grouping == Grouping::Ungrouped || init.last().key == key) {
            init.update(
                init.len() - 1,
                SectionView { key: init.last().key, positions: init.last().positions.push(list.last()) },
            )
        } else {
            init.push(SectionView { key, positions: seq![list.last()] })
        }
    }
}

/// Cuts the list into sections.
pub fn cut_sections(data: &LibraryData, grouping: Grouping, list: &Vec<usize>) -> (r: Vec<Section>)
    requires
        forall|i: int| 0 <= i < list.len() ==> (#[trigger] list[i]) < data.items.len(),
    ensures
        section_views(r@) == sections_of(*data, grouping, list@),
{
    let mut sections: Vec<Section> = Vec::new();
    let mut n: usize = 0;
    assert(list@.take(0).len() == 0);
    assert(section_views(sections@) =~= sections_of(*data, grouping, list@.take(0)));
    while n < list.len()
        invariant
            n <= list.len(),
            forall|i: int| 0 <= i < list.len() ==> (#[trigger] list[i]) < data.items.len(),
            section_views(sections@) == sections_of(*data, grouping, list@.take(n as int)),
        decreases list.len() - n,
    {
        let x: usize = list[n];
        let key = group_key_for(&data.items[x], grouping);
        let ghost init = sections@;
        assert(list@.take(n + 1).drop_last() =~= list@.take(n as int));
        assert(list@.take(n + 1).last() == x);
        let joins: bool = sections.len() > 0 && (grouping == Grouping::Ungrouped || sections[sections.len()
            - 1].key.same(&key));
        if joins {
            match sections.pop() {
                Some(mut last) => {
                    let ghost old_last = last;
                    last.positions.push(x);
                    sections.push(last);
                    assert(section_views(sections@) =~= section_views(init).update(
                        init.len() - 1,
                        SectionView { key: old_last@.key, positions: old_last@.positions.push(x) },
                    ));
                },
                None => {},
            }
        } else {
            let mut positions: Vec<usize> = Vec::new();
            positions.push(x);
            assert(positions@ =~= seq![x]);
            sections.push(Section { key, positions });
            assert(section_views(sections@) =~= section_views(init).push(SectionView { key: key@, positions: seq![x] }));
        }
        n = n + 1;
    }
    assert(list@.take(list.len() as int) =~= list@);
    sections
}

/// Whether some item has a genre.
pub open spec fn has_genre(items: Seq<Item>, genre: Seq<char>) -> bool {
    exists|i: int| 0 <= i < items.len() && listed((#[trigger] items[i]).genres@, genre)
}

/// Every genre of every item, as often as it stands there.
fn all_genres(items: &Vec<Item>) -> (r: Vec<String>)
    ensures
        forall|g: Seq<char>| #[trigger] listed(r@, g) == has_genre(items@, g),
{
    let mut r: Vec<String> = Vec::new();
    let mut n: usize = 0;
    while n < items.len()
        invariant
            n <= items.len(),
            forall|g: Seq<char>| #[trigger] listed(r@, g) == has_genre(items@.take(n as int), g),
        decreases items.len() - n,
    {
        let genres = &items[n].genres;
        let ghost before = r@;
        let mut k: usize = 0;
        while k < genres.len()
            invariant
                k <= genres.len(),
                n < items.len(),
                genres@ == items[n as int].genres@,
                forall|g: Seq<char>| #[trigger] listed(r@, g) == (listed(before, g) || listed(genres@.take(k as int), g)),
            decreases genres.len() - k,
        {
            let ghost old_r = r@;
            r.push(genres[k].clone());
            k = k + 1;
            proof {
                let last = genres[k - 1];
                assert forall|g: Seq<char>| #[trigger] listed(r@, g) == (listed(before, g) || listed(
                    genres@.take(k as int),
                    g,
                )) by {
                    lemma_listed_push(old_r, last, g);
                    assert(genres@.take(k as int) =~= genres@.take(k - 1).push(last));
                    lemma_listed_push(genres@.take(k - 1), last, g);
                    assert(listed(old_r, g) == (listed(before, g) || listed(genres@.take(k - 1), g)));
                }
            }
        }
        n = n + 1;
        proof {
            assert(genres@.take(genres.len() as int) =~= genres@);
            assert forall|g: Seq<char>| #[trigger] listed(r@, g) == has_genre(items@.take(n as int), g) by {
                let (t, u) = (items@.take(n - 1), items@.take(n as int));
                assert(listed(before, g) == has_genre(t, g));
                if has_genre(t, g) {
                    let i = choose|i: int| 0 <= i < t.len() && listed((#[trigger] t[i]).genres@, g);
                    assert(u[i] == t[i]);
                }
                if listed(genres@, g) {
                    assert(u[n - 1].genres@ == genres@);
                }
                if has_genre(u, g) {
                    let i = choose|i: int| 0 <= i < u.len() && listed((#[trigger] u[i]).genres@, g);
                    if i < n - 1 {
                        assert(t[i] == u[i]);
                    }
                }
            }
        }
    }
    assert(items@.take(items.len() as int) =~= items@);
    r
}

/// Whether `list` holds its texts in the order of their code points, each once.
pub open spec fn ascending(list: Seq<String>) -> bool {
    forall|i: int, j: int|
        0 <= i < j < list.len() ==> lex_less(codes(#[trigger] list[i]@), codes(#[trigger] list[j]@))
}

/// The texts of a list, each once, in the order of their code points.
pub fn sorted_unique(all: &Vec<String>) -> (list: Vec<String>)
    ensures
        forall|g: Seq<char>| #[trigger] listed(list@, g) == listed(all@, g),
        ascending(list@),
{
    let mut keys: Vec<Vec<i64>> = Vec::new();
    let mut n: usize = 0;
    while n < all.len()
        invariant
            n <= all.len(),
            keys.len() == n,
            forall|i: int| 0 <= i < n ==> ints(#[trigger] keys[i]@) == codes(all[i]@),
        decreases all.len() - n,
    {
        let mut key: Vec<i64> = Vec::new();
        push_codes(&mut key, all[n].as_str());
        assert(ints(key@) =~= codes(all[n as int]@));
        keys.push(key);
        n = n + 1;
    }
    let order = order_of(&keys);
    let ghost ks = key_list(keys@);
    let mut list: Vec<String> = Vec::new();
    let mut m: usize = 0;
    while m < order.len()
        invariant
            m <= order.len(),
            ks == key_list(keys@),
            stable_order(ks, order@),
            order.len() == all.len(),
            keys.len() == all.len(),
            forall|i: int| 0 <= i < all.len() ==> ints(#[trigger] keys[i]@) == codes(all[i]@),
            forall|i: int, j: int|
                0 <= i < j < list.len() ==> lex_less(codes(#[trigger] list[i]@), codes(#[trigger] list[j]@)),
            list.len() == 0 <==> m == 0,
            m > 0 ==> list[list.len() - 1]@ == all[order[m - 1] as int]@,
            forall|i: int| 0 <= i < m ==> listed(list@, all[#[trigger] order[i] as int]@),
            forall|i: int| 0 <= i < list.len() ==> listed(all@, #[trigger] list[i]@),
        decreases order.len() - m,
    {
        let x: usize = order[m];
        let fresh: bool = list.len() == 0 || list[list.len() - 1] != all[x];
        let ghost old_list = list@;
        proof {
            if m > 0 {
                let y = order[m - 1] as int;
                assert(before(ks, y, x as int));
                lemma_codes_injective(all[y]@, all[x as int]@);
                assert(fresh ==> lex_less(codes(all[y]@), codes(all[x as int]@)));
            }
        }
        if fresh {
            list.push(all[x].clone());
            proof {
                assert forall|i: int, j: int| 0 <= i < j < list.len() implies lex_less(
                    codes(#[trigger] list[i]@),
                    codes(#[trigger] list[j]@),
                ) by {
                    if j == list.len() - 1 {
                        let l = old_list.len() - 1;
                        assert(list[i] == old_list[i]);
                        assert(lex_less(codes(old_list[l]@), codes(list[j]@)));
                        if i < l {
                            assert(lex_less(codes(old_list[i]@), codes(old_list[l]@)));
                            lemma_lex_transitive(codes(list[i]@), codes(old_list[l]@), codes(list[j]@));
                        }
                    } else {
                        assert(list[i] == old_list[i] && list[j] == old_list[j]);
                    }
                }
            }
        }
        m = m + 1;
        proof {
            assert forall|i: int| 0 <= i < m implies listed(list@, all[#[trigger] order[i] as int]@) by {
                let g = all[order[i] as int]@;
                if fresh {
                    lemma_listed_push(old_list, list[list.len() - 1], g);
                }
                if i == m - 1 {
                    assert(list[list.len() - 1]@ == g);
                }
            }
            assert forall|i: int| 0 <= i < list.len() implies listed(all@, #[trigger] list[i]@) by {
                if i < old_list.len() {
                    assert(list[i] == old_list[i]);
                } else {
                    assert(all[x as int]@ == list[i]@);
                }
            }
        }
    }
    proof {
        assert forall|g: Seq<char>| #[trigger] listed(list@, g) == listed(all@, g) by {
            if listed(all@, g) {
                let a = choose|a: int| 0 <= a < all.len() && #[trigger] all[a]@ == g;
                lemma_order_complete(ks, order@, a);
                let i = choose|i: int| 0 <= i < order.len() && order[i] == a;
                assert(listed(list@, all[order[i] as int]@));
            }
            if listed(list@, g) {
                let i = choose|i: int| 0 <= i < list.len() && #[trigger] list[i]@ == g;
                assert(listed(all@, list[i]@));
            }
        }
    }
    list
}

/// The genres of the items, each once, in the order of their code points.
pub fn genre_chips(items: &Vec<Item>) -> (chips: Vec<String>)
    ensures
        forall|g: Seq<char>| #[trigger] listed(chips@, g) == has_genre(items@, g),
        ascending(chips@),
{
    let genres = all_genres(items);
    let chips = sorted_unique(&genres);
    assert forall|g: Seq<char>| #[trigger] listed(chips@, g) == has_genre(items@, g) by {
        assert(listed(genres@, g) == has_genre(items@, g));
    }
    chips
}

/// Different characters have different codes.
proof fn lemma_code_injective(a: char, b: char)
    ensures
        a as u32 == b as u32 ==> a == b,
{
}

/// Different texts have different code points.
proof fn lemma_codes_injective(a: Seq<char>, b: Seq<char>)
    ensures
        codes(a) == codes(b) ==> a == b,
{
    if codes(a) == codes(b) {
        assert(a.len() == codes(a).len() && b.len() == codes(b).len());
        assert forall|i: int| 0 <= i < a.len() implies a[i] == b[i] by {
            assert(codes(a)[i] == a[i] as u32 as int);
            assert(codes(b)[i] == b[i] as u32 as int);
            lemma_code_injective(a[i], b[i]);
        }
        assert(a =~= b);
    }
}

/// The position keys of all items.
spec fn position_keys(data: LibraryData, view: LibraryView, low: Seq<LoweredText>) -> Seq<Seq<int>> {
    Seq::new(data.items@.len(), |x: int| position_key(data, view, low, x))
}

/// The order of the list is that of the position keys.
proof fn lemma_order_by_keys(data: LibraryData, view: LibraryView, low: Seq<LoweredText>, x: int, y: int)
    requires
        0 <= x < data.items.len(),
        0 <= y < data.items.len(),
    ensures
        comes_before(data, view, low, x, y) == before(position_keys(data, view, low), x, y),
{
    let (a, b) = (data.items[x], data.items[y]);
    let (ra, rb) = (group_rank(view.grouping, a, low[x]), group_rank(view.grouping, b, low[y]));
    let ka = sort_key(view.sort, a, low[x], progress_of(data.last_listened@, a.id@));
    let kb = sort_key(view.sort, b, low[y], progress_of(data.last_listened@, b.id@));
    lemma_rank_above(view.grouping, a, low[x]);
    lemma_rank_above(view.grouping, b, low[y]);
    lemma_paired_keys(-2, ra, ka, rb, kb);
}

proof fn lemma_arranged_sorted(data: LibraryData, view: LibraryView, low: Seq<LoweredText>, list: Seq<usize>)
    requires
        arranged(data, view, low, list),
    ensures
        sorted_within(position_keys(data, view, low), list, 0, data.items.len() as int),
{
    let keys = position_keys(data, view, low);
    assert forall|i: int, j: int| 0 <= i < j < list.len() implies before(
        keys,
        #[trigger] list[i] as int,
        #[trigger] list[j] as int,
    ) by {
        lemma_order_by_keys(data, view, low, list[i] as int, list[j] as int);
    }
}

/// What is loaded and chosen determines the list.
pub proof fn law_list_determined(
    data: LibraryData,
    view: LibraryView,
    low: Seq<LoweredText>,
    a: Seq<usize>,
    b: Seq<usize>,
)
    requires
        arranged(data, view, low, a),
        arranged(data, view, low, b),
    ensures
        a == b,
{
    let keys = position_keys(data, view, low);
    lemma_arranged_sorted(data, view, low, a);
    lemma_arranged_sorted(data, view, low, b);
    assert forall|x: usize| a.contains(x) == b.contains(x) by {
        if a.contains(x) {
            assert(shows(data, view, data.items[x as int]));
        }
        if b.contains(x) {
            assert(shows(data, view, data.items[x as int]));
        }
    }
    lemma_sorted_unique(keys, a, b);
}

/// The list shows no item twice.
pub proof fn law_shown_once(data: LibraryData, view: LibraryView, low: Seq<LoweredText>, list: Seq<usize>)
    requires
        arranged(data, view, low, list),
    ensures
        list.no_duplicates(),
{
    let keys = position_keys(data, view, low);
    lemma_arranged_sorted(data, view, low, list);
    assert forall|i: int, j: int| 0 <= i < list.len() && 0 <= j < list.len() && i != j implies list[i]
        != list[j] by {
        lemma_before_irreflexive(keys, list[i] as int);
        if i < j {
            assert(before(keys, list[i] as int, list[j] as int));
        } else {
            assert(before(keys, list[j] as int, list[i] as int));
        }
    }
}

/// The items without a name follow all the others, whatever the section is called.
pub proof fn law_fallback_last(
    data: LibraryData,
    view: LibraryView,
    low: Seq<LoweredText>,
    list: Seq<usize>,
    i: int,
    j: int,
)
    requires
        arranged(data, view, low, list),
        0 <= i < j < list.len(),
        group_of(data.items[list[i] as int], view.grouping).fallback,
    ensures
        group_of(data.items[list[j] as int], view.grouping).fallback,
{
    let (x, y) = (list[i] as int, list[j] as int);
    assert(comes_before(data, view, low, x, y));
    lemma_ranks(view.grouping, data.items[x], low[x], data.items[y], low[y]);
}

/// Named sections follow each other by their lower-case names.
pub proof fn law_sections_by_name(
    data: LibraryData,
    view: LibraryView,
    low: Seq<LoweredText>,
    list: Seq<usize>,
    i: int,
    j: int,
)
    requires
        view.grouping != Grouping::Ungrouped,
        arranged(data, view, low, list),
        0 <= i < j < list.len(),
        !group_of(data.items[list[j] as int], view.grouping).fallback,
    ensures
        !lex_less(codes(low[list[j] as int].group), codes(low[list[i] as int].group)),
{
    let (x, y) = (list[i] as int, list[j] as int);
    assert(comes_before(data, view, low, x, y));
    let (ca, cb) = (codes(low[x].group), codes(low[y].group));
    lemma_ranks(view.grouping, data.items[x], low[x], data.items[y], low[y]);
    lemma_lex_irreflexive(ca);
    if lex_less(cb, ca) {
        if lex_less(ca, cb) {
            lemma_lex_transitive(ca, cb, ca);
        }
    }
}

/// Inside a section the chosen order holds.
pub proof fn law_sorted_within_sections(
    data: LibraryData,
    view: LibraryView,
    low: Seq<LoweredText>,
    list: Seq<usize>,
    i: int,
    j: int,
)
    requires
        low == lowered_texts(data, view),
        arranged(data, view, low, list),
        0 <= i < j < list.len(),
        group_of(data.items[list[i] as int], view.grouping) == group_of(data.items[list[j] as int], view.grouping),
    ensures
        ({
            let (x, y) = (list[i] as int, list[j] as int);
            let (a, b) = (data.items[x], data.items[y]);
            let ka = sort_key(view.sort, a, low[x], progress_of(data.last_listened@, a.id@));
            let kb = sort_key(view.sort, b, low[y], progress_of(data.last_listened@, b.id@));
            lex_less(ka, kb) || (ka == kb && x < y)
        }),
{
    let (x, y) = (list[i] as int, list[j] as int);
    assert(comes_before(data, view, low, x, y));
    let ra = group_rank(view.grouping, data.items[x], low[x]);
    let rb = group_rank(view.grouping, data.items[y], low[y]);
    assert(ra == rb);
    lemma_lex_irreflexive(ra);
}

/// Ordered by last listening and not grouped, no item that was never played
/// stands before one that was.
pub proof fn law_played_first(
    data: LibraryData,
    view: LibraryView,
    low: Seq<LoweredText>,
    list: Seq<usize>,
    i: int,
    j: int,
)
    requires
        view.sort == SortKey::LastListened,
        view.grouping == Grouping::Ungrouped,
        arranged(data, view, low, list),
        0 <= i < j < list.len(),
        progress_of(data.last_listened@, data.items[list[i] as int].id@) is None,
    ensures
        progress_of(data.last_listened@, data.items[list[j] as int].id@) is None,
{
    let (x, y) = (list[i] as int, list[j] as int);
    assert(comes_before(data, view, low, x, y));
    let (a, b) = (data.items[x], data.items[y]);
    let ka = sort_key(view.sort, a, low[x], progress_of(data.last_listened@, a.id@));
    let kb = sort_key(view.sort, b, low[y], progress_of(data.last_listened@, b.id@));
    assert(ka[0] == 1);
    if progress_of(data.last_listened@, b.id@) is Some {
        assert(kb[0] == 0);
    }
    lemma_lex_irreflexive(Seq::<int>::empty());
}

/// Without a search text and without a filter every item is shown.
pub proof fn law_no_filter_shows_all(data: LibraryData, view: LibraryView, item: Item)
    requires
        view.query@.len() == 0,
        !view.offline,
        !view.in_progress_only,
        !view.hide_finished,
        !(view.category is Genre),
        !(view.category is OneSeries),
    ensures
        shows(data, view, item),
{
}

/// A filter only ever takes items away.
pub proof fn law_filters_narrow(data: LibraryData, narrow: LibraryView, wide: LibraryView, item: Item)
    requires
        shows(data, narrow, item),
        wide.query@ == narrow.query@ || wide.query@.len() == 0,
        wide.offline ==> narrow.offline,
        wide.in_progress_only ==> narrow.in_progress_only,
        wide.hide_finished ==> narrow.hide_finished,
        wide.category == narrow.category || !(wide.category is Genre || wide.category is OneSeries),
    ensures
        shows(data, wide, item),
{
}

/// Showing only items in progress already leaves out the finished ones.
pub proof fn law_in_progress_is_unfinished(data: LibraryData, item: Item)
    requires
        in_progress(data, item),
    ensures
        !finished(data, item),
{
}

/// The positions of the sections, one section after the other.
pub open spec fn listing(sections: Seq<SectionView>) -> Seq<usize>
    decreases sections.len(),
{
    if sections.len() == 0 {
        Seq::empty()
    } else {
        listing(sections.drop_last()) + sections.last().positions
    }
}

/// The sections hold the list, no more and no less, in its order. None is
/// empty; the items of one share its name, and neighbours have different names.
/// Without grouping there is at most one.
pub proof fn law_sections_partition(data: LibraryData, grouping: Grouping, list: Seq<usize>)
    ensures
        ({
            let s = sections_of(data, grouping, list);
            &&& listing(s) == list
            &&& forall|k: int| 0 <= k < s.len() ==> (#[trigger] s[k]).positions.len() > 0
            &&& grouping != Grouping::Ungrouped ==> forall|k: int, i: int|
                0 <= k < s.len() && 0 <= i < s[k].positions.len() ==> group_of(
                    data.items[#[trigger] s[k].positions[i] as int],
                    grouping,
                ) == s[k].key
            &&& grouping != Grouping::Ungrouped ==> forall|k: int|
                0 < k < s.len() ==> (#[trigger] s[k]).key != s[k - 1].key
            &&& grouping == Grouping::Ungrouped ==> s.len() <= 1
        }),
    decreases list.len(),
{
    if list.len() > 0 {
        let init_list = list.drop_last();
        law_sections_partition(data, grouping, init_list);
        let init = sections_of(data, grouping, init_list);
        let s = sections_of(data, grouping, list);
        let x = list.last();
        assert(list =~= init_list.push(x));
        if init.len() > 0 && (grouping == Grouping::Ungrouped || init.last().key == group_of(
            data.items[x as int],
            grouping,
        )) {
            assert(s.drop_last() =~= init.drop_last());
            assert(listing(s) =~= listing(init).push(x));
            assert forall|k: int| 0 <= k < s.len() implies (#[trigger] s[k]).positions.len() > 0 by {
                assert(init[k].positions.len() > 0);
            }
            if grouping != Grouping::Ungrouped {
                assert forall|k: int, i: int| 0 <= k < s.len() && 0 <= i < s[k].positions.len() implies group_of(
                    data.items[#[trigger] s[k].positions[i] as int],
                    grouping,
                ) == s[k].key by {
                    if k == s.len() - 1 && i == s[k].positions.len() - 1 {
                    } else {
                        assert(s[k].positions[i] == init[k].positions[i]);
                    }
                }
                assert forall|k: int| 0 < k < s.len() implies (#[trigger] s[k]).key != s[k - 1].key by {
                    assert(init[k].key != init[k - 1].key);
                }
            }
        } else {
            assert(s.drop_last() =~= init);
            assert(listing(s) =~= listing(init).push(x));
            assert forall|k: int| 0 <= k < s.len() implies (#[trigger] s[k]).positions.len() > 0 by {
                if k < init.len() {
                    assert(init[k].positions.len() > 0);
                }
            }
            if grouping != Grouping::Ungrouped {
                assert forall|k: int, i: int| 0 <= k < s.len() && 0 <= i < s[k].positions.len() implies group_of(
                    data.items[#[trigger] s[k].positions[i] as int],
                    grouping,
                ) == s[k].key by {
                    if k < init.len() {
                        assert(s[k].positions[i] == init[k].positions[i]);
                    }
                }
                assert forall|k: int| 0 < k < s.len() implies (#[trigger] s[k]).key != s[k - 1].key by {
                    if k < init.len() {
                        assert(init[k].key != init[k - 1].key);
                    }
                }
            }
        }
    }
}

/// Where an item of a section stands in the list.
proof fn lemma_listing_at(s: Seq<SectionView>, k: int, i: int)
    requires
        0 <= k < s.len(),
        0 <= i < s[k].positions.len(),
    ensures
        listing(s.take(k)).len() + i < listing(s).len(),
        listing(s)[listing(s.take(k)).len() + i] == s[k].positions[i],
    decreases s.len(),
{
    if k == s.len() - 1 {
        assert(s.take(k) =~= s.drop_last());
    } else {
        assert(s.drop_last().take(k) =~= s.take(k));
        lemma_listing_at(s.drop_last(), k, i);
    }
}

/// Further on in the list the section rank is never lower.
proof fn lemma_rank_ascends(data: LibraryData, view: LibraryView, low: Seq<LoweredText>, list: Seq<usize>, i: int, j: int)
    requires
        arranged(data, view, low, list),
        0 <= i < j < list.len(),
    ensures
        ({
            let (x, y) = (list[i] as int, list[j] as int);
            let ra = group_rank(view.grouping, data.items[x], low[x]);
            let rb = group_rank(view.grouping, data.items[y], low[y]);
            lex_less(ra, rb) || ra == rb
        }),
{
    assert(comes_before(data, view, low, list[i] as int, list[j] as int));
}

/// Every place of the list is in one of the sections.
proof fn lemma_listing_find(s: Seq<SectionView>, p: int) -> (r: (int, int))
    requires
        0 <= p < listing(s).len(),
    ensures
        0 <= r.0 < s.len(),
        0 <= r.1 < s[r.0].positions.len(),
        s[r.0].positions[r.1] == listing(s)[p],
    decreases s.len(),
{
    let init = listing(s.drop_last());
    if p < init.len() {
        let (k, i) = lemma_listing_find(s.drop_last(), p);
        (k, i)
    } else {
        (s.len() - 1, p - init.len())
    }
}

/// Each name of an item that is shown has one section, whatever other names differ
/// from it only in case, and that section holds the items that are shown and have
/// the name, and no others.
pub proof fn law_one_section_per_name(data: LibraryData, view: LibraryView, low: Seq<LoweredText>, list: Seq<usize>)
    requires
        view.grouping != Grouping::Ungrouped,
        low == lowered_texts(data, view),
        arranged(data, view, low, list),
    ensures
        ({
            let s = sections_of(data, view.grouping, list);
            &&& forall|k: int, l: int|
                0 <= k < l < s.len() ==> (#[trigger] s[k]).key != (#[trigger] s[l]).key
            &&& forall|k: int, x: int|
                #![trigger s[k], data.items[x]]
                0 <= k < s.len() && 0 <= x < data.items.len() ==> (s[k].positions.contains(x as usize) <==> shows(
                    data,
                    view,
                    data.items[x],
                ) && group_of(data.items[x], view.grouping) == s[k].key)
            &&& forall|x: int|
                0 <= x < data.items.len() && shows(data, view, #[trigger] data.items[x]) ==> exists|k: int|
                    0 <= k < s.len() && (#[trigger] s[k]).key == group_of(data.items[x], view.grouping)
        }),
{
    let s = sections_of(data, view.grouping, list);
    law_sections_partition(data, view.grouping, list);
    assert forall|k: int, l: int| 0 <= k < l < s.len() implies (#[trigger] s[k]).key != (#[trigger] s[l]).key by {
        if s[k].key == s[l].key {
            assert(s[k + 1].key != s[k + 1 - 1].key);
            assert(l > k + 1);
            assert(s[k].positions.len() > 0 && s[k + 1].positions.len() > 0 && s[l].positions.len() > 0);
            lemma_listing_at(s, k, 0);
            lemma_listing_at(s, k + 1, 0);
            lemma_listing_at(s, l, 0);
            lemma_listing_at(s.take(k + 1), k, 0);
            lemma_listing_at(s.take(l), k + 1, 0);
            assert(s.take(k + 1).take(k) =~= s.take(k));
            assert(s.take(l).take(k + 1) =~= s.take(k + 1));
            let p = listing(s.take(k)).len() as int;
            let q = listing(s.take(k + 1)).len() as int;
            let r = listing(s.take(l)).len() as int;
            assert(p < q < r);
            let (x, y, z) = (list[p] as int, list[q] as int, list[r] as int);
            assert(x == s[k].positions[0] && y == s[k + 1].positions[0] && z == s[l].positions[0]);
            lemma_rank_ascends(data, view, low, list, p, q);
            lemma_rank_ascends(data, view, low, list, q, r);
            let rx = group_rank(view.grouping, data.items[x], low[x]);
            let ry = group_rank(view.grouping, data.items[y], low[y]);
            let rz = group_rank(view.grouping, data.items[z], low[z]);
            assert(group_of(data.items[x], view.grouping) == group_of(data.items[z], view.grouping));
            assert(rx == rz);
            if lex_less(rx, ry) {
                if lex_less(ry, rz) {
                    lemma_lex_transitive(rx, ry, rx);
                }
                lemma_lex_irreflexive(rx);
            }
            assert(rx == ry);
            lemma_ranks(view.grouping, data.items[x], low[x], data.items[y], low[y]);
        }
    }
    assert forall|x: int| 0 <= x < data.items.len() && shows(data, view, #[trigger] data.items[x]) implies exists|
        k: int,
    |
        0 <= k < s.len() && (#[trigger] s[k]).key == group_of(data.items[x], view.grouping) && s[k].positions.contains(
            x as usize,
        ) by {
        let p = choose|p: int| 0 <= p < list.len() && list[p] == x;
        let (k, i) = lemma_listing_find(s, p);
        assert(s[k].positions[i] == x);
        assert(group_of(data.items[s[k].positions[i] as int], view.grouping) == s[k].key);
    }
    assert forall|k: int, x: int|
        #![trigger s[k], data.items[x]]
        0 <= k < s.len() && 0 <= x < data.items.len() implies (s[k].positions.contains(x as usize) <==> shows(
        data,
        view,
        data.items[x],
    ) && group_of(data.items[x], view.grouping) == s[k].key) by {
        if s[k].positions.contains(x as usize) {
            let i = choose|i: int| 0 <= i < s[k].positions.len() && s[k].positions[i] == x as usize;
            lemma_listing_at(s, k, i);
            let p = listing(s.take(k)).len() + i;
            assert(list[p] == x);
            assert(group_of(data.items[s[k].positions[i] as int], view.grouping) == s[k].key);
        }
        if shows(data, view, data.items[x]) && group_of(data.items[x], view.grouping) == s[k].key {
            let l = choose|l: int|
                0 <= l < s.len() && (#[trigger] s[l]).key == group_of(data.items[x], view.grouping)
                    && s[l].positions.contains(x as usize);
            if l < k {
                assert(s[l].key != s[k].key);
            } else if k < l {
                assert(s[k].key != s[l].key);
            }
        }
    }
}

/// Whether a text comes before another by its characters: up to some place they
/// are the same, and there the first ends, or has the lesser code point.
pub open spec fn reads_before(a: Seq<char>, b: Seq<char>) -> bool {
    exists|k: int| first_difference(a, b, k)
}

/// Whether two texts are the same up to a place, and the first ends there or has
/// the lesser code point.
pub open spec fn first_difference(a: Seq<char>, b: Seq<char>, k: int) -> bool {
    &&& 0 <= k <= a.len() && k < b.len()
    &&& forall|i: int| 0 <= i < k ==> a[i] == b[i]
    &&& k == a.len() || (a[k] as u32) < (b[k] as u32)
}

/// Texts are ordered by their characters.
pub proof fn law_text_order(a: Seq<char>, b: Seq<char>)
    ensures
        lex_less(codes(a), codes(b)) <==> reads_before(a, b),
    decreases a.len(),
{
    let (ca, cb) = (codes(a), codes(b));
    if a.len() > 0 && b.len() > 0 {
        let (ra, rb) = (a.skip(1), b.skip(1));
        assert(ca.skip(1) =~= codes(ra));
        assert(cb.skip(1) =~= codes(rb));
        law_text_order(ra, rb);
        assert(ca[0] == a[0] as u32 as int && cb[0] == b[0] as u32 as int);
        lemma_code_injective(a[0], b[0]);
        if a[0] == b[0] {
            assert(lex_less(ca, cb) == lex_less(codes(ra), codes(rb)));
            if reads_before(ra, rb) {
                let k = choose|k: int| first_difference(ra, rb, k);
                assert forall|i: int| 0 <= i < k + 1 implies a[i] == b[i] by {
                    if i > 0 {
                        assert(ra[i - 1] == rb[i - 1]);
                    }
                }
                assert(first_difference(a, b, k + 1));
            }
            if reads_before(a, b) {
                let k = choose|k: int| first_difference(a, b, k);
                assert(k > 0);
                assert forall|i: int| 0 <= i < k - 1 implies ra[i] == rb[i] by {
                    assert(a[i + 1] == b[i + 1]);
                }
                assert(first_difference(ra, rb, k - 1));
            }
            assert(lex_less(ca, cb) <==> reads_before(a, b));
        } else {
            if (a[0] as u32) < (b[0] as u32) {
                assert(first_difference(a, b, 0));
            }
            if reads_before(a, b) {
                let k = choose|k: int| first_difference(a, b, k);
                if k > 0 {
                    assert(a[0] == b[0]);
                }
            }
            assert(lex_less(ca, cb) <==> reads_before(a, b));
        }
    } else if b.len() > 0 {
        assert(first_difference(a, b, 0));
    }
}

/// Whether two items fall into one section: of one author, of one series, or
/// without either; without grouping all do.
pub open spec fn same_section(grouping: Grouping, a: Item, b: Item) -> bool {
    match grouping {
        Grouping::Ungrouped => true,
        Grouping::ByAuthor => match (a.author, b.author) {
            (Some(x), Some(y)) => x@ == y@,
            (None, None) => true,
            _ => false,
        },
        Grouping::BySeries => match (a.series_name, b.series_name) {
            (Some(x), Some(y)) => x@ == y@,
            (None, None) => true,
            _ => false,
        },
    }
}

/// Of two items of one section the keys of the order decide, and then where they
/// were loaded.
proof fn lemma_by_keys(data: LibraryData, view: LibraryView, list: Seq<usize>, i: int, j: int)
    requires
        arranged(data, view, lowered_texts(data, view), list),
        0 <= i < j < list.len(),
        same_section(view.grouping, data.items[list[i] as int], data.items[list[j] as int]),
    ensures
        ({
            let (x, y) = (list[i] as int, list[j] as int);
            let (a, b) = (data.items[x], data.items[y]);
            let low = lowered_texts(data, view);
            let ka = sort_key(view.sort, a, low[x], progress_of(data.last_listened@, a.id@));
            let kb = sort_key(view.sort, b, low[y], progress_of(data.last_listened@, b.id@));
            &&& !lex_less(kb, ka)
            &&& ka == kb ==> x < y
        }),
{
    let (x, y) = (list[i] as int, list[j] as int);
    let (a, b) = (data.items[x], data.items[y]);
    let low = lowered_texts(data, view);
    law_sorted_within_sections(data, view, low, list, i, j);
    let ka = sort_key(view.sort, a, low[x], progress_of(data.last_listened@, a.id@));
    let kb = sort_key(view.sort, b, low[y], progress_of(data.last_listened@, b.id@));
    lemma_lex_irreflexive(ka);
    lemma_lex_irreflexive(kb);
    if lex_less(kb, ka) && lex_less(ka, kb) {
        lemma_lex_transitive(ka, kb, ka);
    }
}

/// Ordered by title, no item of a section comes after one whose title in lower case
/// comes later; items with the same one stay as they were loaded.
pub proof fn law_by_title(data: LibraryData, view: LibraryView, list: Seq<usize>, i: int, j: int)
    requires
        view.sort == SortKey::Title,
        arranged(data, view, lowered_texts(data, view), list),
        0 <= i < j < list.len(),
        same_section(view.grouping, data.items[list[i] as int], data.items[list[j] as int]),
    ensures
        ({
            let (a, b) = (data.items[list[i] as int], data.items[list[j] as int]);
            &&& !reads_before(lowercase(b.title@), lowercase(a.title@))
            &&& lowercase(a.title@) == lowercase(b.title@) ==> list[i] < list[j]
        }),
{
    let (a, b) = (data.items[list[i] as int], data.items[list[j] as int]);
    lemma_by_keys(data, view, list, i, j);
    law_text_order(lowercase(b.title@), lowercase(a.title@));
}

/// The author of an item, or nothing.
pub open spec fn author_or_nothing(item: Item) -> Seq<char> {
    match item.author {
        Some(author) => author@,
        None => ""@,
    }
}

/// Ordered by author, no item of a section comes after one whose author in lower
/// case comes later; items with the same one stay as they were loaded. An item
/// without an author counts as one with an empty name.
pub proof fn law_by_author(data: LibraryData, view: LibraryView, list: Seq<usize>, i: int, j: int)
    requires
        view.sort == SortKey::Author,
        arranged(data, view, lowered_texts(data, view), list),
        0 <= i < j < list.len(),
        same_section(view.grouping, data.items[list[i] as int], data.items[list[j] as int]),
    ensures
        ({
            let a = lowercase(author_or_nothing(data.items[list[i] as int]));
            let b = lowercase(author_or_nothing(data.items[list[j] as int]));
            &&& !reads_before(b, a)
            &&& a == b ==> list[i] < list[j]
        }),
{
    let a = lowercase(author_or_nothing(data.items[list[i] as int]));
    let b = lowercase(author_or_nothing(data.items[list[j] as int]));
    lemma_by_keys(data, view, list, i, j);
    law_text_order(b, a);
}

/// Whether one time is after another.
pub open spec fn later(a: Timestamp, b: Timestamp) -> bool {
    a.seconds > b.seconds || (a.seconds == b.seconds && a.nanos > b.nanos)
}

/// The key by which the latest comes first does that.
proof fn lemma_newest_first(a: Timestamp, b: Timestamp)
    ensures
        lex_less(newest_first(a), newest_first(b)) <==> later(a, b),
        newest_first(a) == newest_first(b) <==> a == b,
{
    let (ka, kb) = (newest_first(a), newest_first(b));
    let (ta, tb) = (ka.skip(1), kb.skip(1));
    assert(ka[0] == -1 - a.seconds as int && kb[0] == -1 - b.seconds as int);
    assert(ka[1] == -1 - a.nanos as int && kb[1] == -1 - b.nanos as int);
    assert(ta[0] == ka[1] && tb[0] == kb[1]);
    assert(lex_less(ka, kb) == (ka[0] < kb[0] || (ka[0] == kb[0] && lex_less(ta, tb))));
    assert(!lex_less(ta.skip(1), tb.skip(1)));
}

/// Ordered by the date, no item of a section comes after one that was added
/// earlier; items added at the same time stay as they were loaded.
pub proof fn law_by_date(data: LibraryData, view: LibraryView, list: Seq<usize>, i: int, j: int)
    requires
        view.sort == SortKey::DateAdded,
        arranged(data, view, lowered_texts(data, view), list),
        0 <= i < j < list.len(),
        same_section(view.grouping, data.items[list[i] as int], data.items[list[j] as int]),
    ensures
        ({
            let (a, b) = (data.items[list[i] as int], data.items[list[j] as int]);
            &&& !later(b.added_at, a.added_at)
            &&& a.added_at == b.added_at ==> list[i] < list[j]
        }),
{
    let (a, b) = (data.items[list[i] as int], data.items[list[j] as int]);
    lemma_by_keys(data, view, list, i, j);
    lemma_newest_first(b.added_at, a.added_at);
    lemma_newest_first(a.added_at, b.added_at);
}

/// Ordered by length, no item of a section comes after a shorter one; items of the
/// same length stay as they were loaded.
pub proof fn law_by_duration(data: LibraryData, view: LibraryView, list: Seq<usize>, i: int, j: int)
    requires
        view.sort == SortKey::Duration,
        arranged(data, view, lowered_texts(data, view), list),
        0 <= i < j < list.len(),
        same_section(view.grouping, data.items[list[i] as int], data.items[list[j] as int]),
    ensures
        ({
            let (a, b) = (data.items[list[i] as int], data.items[list[j] as int]);
            &&& !a.duration@.nan && !b.duration@.nan ==> b.duration@.value() <= a.duration@.value()
            &&& a.duration == b.duration ==> list[i] < list[j]
        }),
{
    let (a, b) = (data.items[list[i] as int], data.items[list[j] as int]);
    lemma_by_keys(data, view, list, i, j);
    let (ka, kb) = (seq![-1 - total_key(a.duration.bits)], seq![-1 - total_key(b.duration.bits)]);
    assert(ka.skip(1) =~= Seq::empty() && kb.skip(1) =~= Seq::empty());
    assert(!lex_less(kb.skip(1), ka.skip(1)));
    if !a.duration@.nan && !b.duration@.nan {
        law_total_key(b.duration, a.duration);
    }
}

/// Ordered by the last listening, items of a section that were listened to come
/// first, and among them none after one that was listened to earlier.
pub proof fn law_by_last_listened(data: LibraryData, view: LibraryView, list: Seq<usize>, i: int, j: int)
    requires
        view.sort == SortKey::LastListened,
        arranged(data, view, lowered_texts(data, view), list),
        0 <= i < j < list.len(),
        same_section(view.grouping, data.items[list[i] as int], data.items[list[j] as int]),
    ensures
        ({
            let (a, b) = (data.items[list[i] as int], data.items[list[j] as int]);
            let (pa, pb) = (progress_of(data.last_listened@, a.id@), progress_of(data.last_listened@, b.id@));
            &&& pb is Some ==> pa is Some && !later(pb->0.updated_at, pa->0.updated_at)
            &&& pa is None && pb is None ==> list[i] < list[j]
            &&& pa is Some && pb is Some && pa->0.updated_at == pb->0.updated_at ==> list[i] < list[j]
        }),
{
    let (a, b) = (data.items[list[i] as int], data.items[list[j] as int]);
    let (pa, pb) = (progress_of(data.last_listened@, a.id@), progress_of(data.last_listened@, b.id@));
    lemma_by_keys(data, view, list, i, j);
    if let Some(q) = pb {
        let kb = seq![0int] + newest_first(q.updated_at);
        assert(kb[0] == 0);
        if let Some(p) = pa {
            let ka = seq![0int] + newest_first(p.updated_at);
            assert(ka[0] == 0);
            assert(ka.skip(1) =~= newest_first(p.updated_at));
            assert(kb.skip(1) =~= newest_first(q.updated_at));
            lemma_newest_first(q.updated_at, p.updated_at);
        } else {
            assert(seq![1int][0] == 1);
        }
    }
}

/// Grouped by author, items with an author come before those without; among them
/// no author comes after one whose name in lower case comes later.
pub proof fn law_grouped_by_author(data: LibraryData, view: LibraryView, list: Seq<usize>, i: int, j: int)
    requires
        view.grouping == Grouping::ByAuthor,
        arranged(data, view, lowered_texts(data, view), list),
        0 <= i < j < list.len(),
    ensures
        data.items[list[j] as int].author matches Some(b) ==> (data.items[list[i] as int].author matches Some(a)
            && !reads_before(lowercase(b@), lowercase(a@)) && (lowercase(a@) == lowercase(b@) ==> !reads_before(b@, a@))),
{
    lemma_grouped(data, view, list, i, j);
    let (x, y) = (list[i] as int, list[j] as int);
    if let Some(b) = data.items[y].author {
        if let Some(a) = data.items[x].author {
            law_text_order(lowercase(b@), lowercase(a@));
            law_text_order(b@, a@);
        }
    }
}

/// Grouped by series, items of a series come before those of none; among them no
/// series comes after one whose name in lower case comes later.
pub proof fn law_grouped_by_series(data: LibraryData, view: LibraryView, list: Seq<usize>, i: int, j: int)
    requires
        view.grouping == Grouping::BySeries,
        arranged(data, view, lowered_texts(data, view), list),
        0 <= i < j < list.len(),
    ensures
        data.items[list[j] as int].series_name matches Some(b) ==> (data.items[list[i] as int].series_name matches Some(a)
            && !reads_before(lowercase(b@), lowercase(a@)) && (lowercase(a@) == lowercase(b@) ==> !reads_before(b@, a@))),
{
    lemma_grouped(data, view, list, i, j);
    let (x, y) = (list[i] as int, list[j] as int);
    if let Some(b) = data.items[y].series_name {
        if let Some(a) = data.items[x].series_name {
            law_text_order(lowercase(b@), lowercase(a@));
            law_text_order(b@, a@);
        }
    }
}

/// Of two items the sections decide first.
proof fn lemma_grouped(data: LibraryData, view: LibraryView, list: Seq<usize>, i: int, j: int)
    requires
        view.grouping != Grouping::Ungrouped,
        arranged(data, view, lowered_texts(data, view), list),
        0 <= i < j < list.len(),
    ensures
        ({
            let (na, nb) = (
                group_of(data.items[list[i] as int], view.grouping),
                group_of(data.items[list[j] as int], view.grouping),
            );
            !nb.fallback ==> {
                &&& !na.fallback
                &&& !lex_less(codes(lowercase(nb.label)), codes(lowercase(na.label)))
                &&& lowercase(na.label) == lowercase(nb.label) ==> !lex_less(codes(nb.label), codes(na.label))
            }
        }),
{
    let low = lowered_texts(data, view);
    let (x, y) = (list[i] as int, list[j] as int);
    let (na, nb) = (group_of(data.items[x], view.grouping), group_of(data.items[y], view.grouping));
    if !nb.fallback {
        if na.fallback {
            law_fallback_last(data, view, low, list, i, j);
        }
        law_sections_by_name(data, view, low, list, i, j);
        lemma_ranks(view.grouping, data.items[x], low[x], data.items[y], low[y]);
        assert(comes_before(data, view, low, x, y));
        let (ca, cb) = (codes(na.label), codes(nb.label));
        lemma_lex_irreflexive(ca);
        lemma_lex_irreflexive(cb);
        lemma_lex_irreflexive(codes(lowercase(na.label)));
        if lowercase(na.label) == lowercase(nb.label) && lex_less(cb, ca) {
            if lex_less(ca, cb) {
                lemma_lex_transitive(ca, cb, ca);
            }
        }
    }
}

/// A section is headed by the name that its items have in common, and that of the
/// items without one by words that say so.
pub proof fn law_section_heading(item: Item)
    ensures
        item.author matches Some(name) ==> group_of(item, Grouping::ByAuthor).label == name@ && !group_of(
            item,
            Grouping::ByAuthor,
        ).fallback,
        item.author is None ==> group_of(item, Grouping::ByAuthor).label == "Unknown author"@ && group_of(
            item,
            Grouping::ByAuthor,
        ).fallback,
        item.series_name matches Some(name) ==> group_of(item, Grouping::BySeries).label == name@ && !group_of(
            item,
            Grouping::BySeries,
        ).fallback,
        item.series_name is None ==> group_of(item, Grouping::BySeries).label == "Other"@ && group_of(
            item,
            Grouping::BySeries,
        ).fallback,
{
}

/// Without a search, a filter or a category every item is shown.
pub proof fn law_everything_shown(data: LibraryData, view: LibraryView, item: Item)
    requires
        view.query@.len() == 0,
        !view.offline && !view.in_progress_only && !view.hide_finished,
        view.category is All || view.category is Author || view.category is Series,
    ensures
        shows(data, view, item),
{
}

/// Each filter only takes items away: those that are not downloaded, those that
/// were not started or are finished, those that are finished.
pub proof fn law_filters(data: LibraryData, view: LibraryView, item: Item)
    ensures
        ({
            let progress = progress_of(data.last_listened@, item.id@);
            &&& view.offline ==> (shows(data, view, item) <==> shows(data, LibraryView { offline: false, ..view }, item)
                && exists|i: int| 0 <= i < data.downloaded.len() && (#[trigger] data.downloaded[i])@ == item.id@)
            &&& view.in_progress_only ==> (shows(data, view, item) <==> shows(
                data,
                LibraryView { in_progress_only: false, ..view },
                item,
            ) && progress is Some && !progress->0.is_finished)
            &&& view.hide_finished ==> (shows(data, view, item) <==> shows(
                data,
                LibraryView { hide_finished: false, ..view },
                item,
            ) && !(progress is Some && progress->0.is_finished))
        }),
{
}

/// A category only takes items away: a genre those that do not have it, a series
/// those that are not of it.
pub proof fn law_categories(data: LibraryData, view: LibraryView, item: Item)
    ensures
        ({
            let open = shows(data, LibraryView { category: CategoryFilter::All, ..view }, item);
            match view.category {
                CategoryFilter::Genre(genre) => shows(data, view, item) <==> open && exists|i: int|
                    0 <= i < item.genres.len() && (#[trigger] item.genres[i])@ == genre@,
                CategoryFilter::OneSeries(name) => shows(data, view, item) <==> open && (item.series_name matches Some(s)
                    && s@ == name@),
                _ => shows(data, view, item) <==> open,
            }
        }),
{
}

/// A search only takes items away: those that have the text neither in the title
/// nor in the author.
pub proof fn law_search(data: LibraryData, view: LibraryView, item: Item)
    requires
        view.query@.len() > 0,
    ensures
        forall|plain: LibraryView|
            plain == (LibraryView { query: plain.query, ..view }) && plain.query@.len() == 0 ==> (#[trigger] shows(
                data,
                plain,
                item,
            ) && (has_text(item.search_title@, view.query@) || (item.search_author matches Some(author) && has_text(
                author@,
                view.query@,
            ))) <==> shows(data, view, item)),
{
    law_occurs(item.search_title@, view.query@);
    if let Some(author) = item.search_author {
        law_occurs(author@, view.query@);
    }
}

/// Whether a text stands somewhere in another.
pub open spec fn has_text(hay: Seq<char>, needle: Seq<char>) -> bool {
    exists|before: Seq<char>, after: Seq<char>| #[trigger] (before + needle + after) == hay
}

/// A text occurs in another exactly if that one is something, the text, and
/// something more.
pub proof fn law_occurs(hay: Seq<char>, needle: Seq<char>)
    ensures
        occurs(hay, needle) <==> has_text(hay, needle),
{
    if occurs(hay, needle) {
        let i = choose|i: int| occurs_at(hay, needle, i);
        let (before, after) = (hay.take(i), hay.skip(i + needle.len()));
        assert(before + needle + after =~= hay) by {
            let all = before + needle + after;
            assert forall|k: int| 0 <= k < hay.len() implies all[k] == hay[k] by {
                if i <= k < i + needle.len() {
                    assert(hay.subrange(i, i + needle.len())[k - i] == needle[k - i]);
                }
            }
        }
    }
    if has_text(hay, needle) {
        let (before, after) = choose|before: Seq<char>, after: Seq<char>| #[trigger] (before + needle + after) == hay;
        let i = before.len() as int;
        assert(hay.subrange(i, i + needle.len()) =~= needle);
        assert(occurs_at(hay, needle, i));
    }
}

} // verus!
