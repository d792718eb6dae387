//! The Home tab: what to go on listening to, what is new, and the libraries.
use crate::browse::{ascending, newest_first, sorted_unique};
use crate::double::{clamped, infinite, lemma_whole_value, one, units_text, whole, Double, Num};
use crate::models::{
    author_or_unknown, author_text, is_listed, item_subtitle, listed, subtitle, Item, Library, Progress, Timestamp,
};
use crate::reading::{is_number, law_digits_read_back, law_units_read_back, number_in};
use crate::rounding::{
    apart, half_even, law_half_even_ordered, law_nearest, law_nearest_ordered, lemma_nearest_ratio,
    lemma_nearest_representable, nearest, within,
};
use crate::ordering::{
    before, ints, key_list, lemma_order_complete, lemma_order_distinct, lemma_order_unique, lex_less, order_of,
    stable_order,
};
use crate::sync::{
    announcement, banner_after, cycle_at, lemma_cycle_at, lemma_ends_once, no_banner, stage_after, staged,
    synced_so, text_view, Banner, BannerView, Cycle, CycleAction, CycleEvent, CycleStep, ManualSync, Stage,
    SyncOutcome,
};
use vstd::arithmetic::power2::{lemma2_to64, lemma_pow2_adds, lemma_pow2_pos, lemma_pow2_strictly_increases, pow2};
use vstd::prelude::*;

verus! {

/// The shelf whose heading was tapped.
#[derive(Clone, Copy, Debug, PartialEq, Eq, Structural)]
pub enum Shelf {
    RecentlyAdded,
    ContinueListening,
}

/// What `char::to_uppercase` makes of a character.
pub uninterp spec fn uppercase(c: char) -> Seq<char>;

/// `char::to_uppercase` maps a character to its upper case, one or more
/// characters, by the Unicode tables of std. The result is named, not described.
#[verifier::external_body]
fn uppercase_text(c: char) -> (r: String)
    ensures
        r@ == uppercase(c),
{
    c.to_uppercase().to_string()
}

/// The letter on the avatar: the first of the user name in upper case.
pub fn avatar_letter(username: &str) -> (r: String)
    ensures
        r@ == if username@.len() == 0 {
            "?"@
        } else {
            uppercase(username@[0])
        },
{
    if username.is_empty() {
        String::from_str("?")
    } else {
        uppercase_text(username.get_char(0))
    }
}

/// The tooltip of the avatar.
pub fn avatar_tooltip(username: &str) -> (r: String)
    ensures
        r@ == "Signed in as "@ + username@,
{
    String::from_str("Signed in as ").concat(username)
}

/// The view that stands in while there is nothing to show.
#[derive(Clone, Debug)]
pub struct EmptyState {
    pub visible: bool,
    pub spinner: bool,
    pub spinning: bool,
    pub icon: bool,
    pub icon_name: String,
    pub title: String,
    pub description: String,
    pub details: bool,
    pub details_text: String,
    pub buttons: bool,
    pub retry: bool,
    pub login_again: bool,
}

/// The view that stands in while there is nothing to show.
pub struct EmptyView {
    pub visible: bool,
    pub spinner: bool,
    pub spinning: bool,
    pub icon: bool,
    pub icon_name: Seq<char>,
    pub title: Seq<char>,
    pub description: Seq<char>,
    pub details: bool,
    pub details_text: Seq<char>,
    pub buttons: bool,
    pub retry: bool,
    pub login_again: bool,
}

impl View for EmptyState {
    type V = EmptyView;

    open spec fn view(&self) -> EmptyView {
        EmptyView {
            visible: self.visible,
            spinner: self.spinner,
            spinning: self.spinning,
            icon: self.icon,
            icon_name: self.icon_name@,
            title: self.title@,
            description: self.description@,
            details: self.details,
            details_text: self.details_text@,
            buttons: self.buttons,
            retry: self.retry,
            login_again: self.login_again,
        }
    }
}

impl EmptyView {
    /// Nothing has been synced yet.
    pub open spec fn fresh() -> EmptyView {
        EmptyView {
            visible: true,
            spinner: true,
            spinning: true,
            icon: false,
            icon_name: "folder-music-symbolic"@,
            title: "Syncing your libraries…"@,
            description: "This can take a moment on first sync."@,
            details: false,
            details_text: ""@,
            buttons: false,
            retry: false,
            login_again: false,
        }
    }

    /// A sync is running.
    pub open spec fn syncing(self) -> EmptyView {
        EmptyView {
            visible: true,
            spinner: true,
            spinning: true,
            icon: false,
            title: "Syncing your libraries…"@,
            description: "This can take a moment on first sync."@,
            details: false,
            buttons: false,
            ..self
        }
    }

    /// A sync has failed.
    pub open spec fn failed(error: Seq<char>) -> EmptyView {
        EmptyView {
            visible: true,
            spinner: false,
            spinning: false,
            icon: true,
            icon_name: "dialog-warning-symbolic"@,
            title: "Couldn't sync your libraries"@,
            description: "Check your connection and try again."@,
            details: error.len() > 0,
            details_text: error,
            buttons: true,
            retry: true,
            login_again: false,
        }
    }

    /// A sync has failed because the session is dead.
    pub open spec fn unauthorized(error: Seq<char>) -> EmptyView {
        EmptyView {
            visible: true,
            spinner: false,
            spinning: false,
            icon: true,
            icon_name: "system-lock-screen-symbolic"@,
            title: "Sign in again"@,
            description: "Your session on this server has expired or was revoked."@,
            details: error.len() > 0,
            details_text: error,
            buttons: true,
            retry: true,
            login_again: true,
        }
    }

    /// A sync has found no library.
    pub open spec fn nothing(self) -> EmptyView {
        EmptyView {
            visible: true,
            spinner: false,
            spinning: false,
            icon: true,
            icon_name: "folder-music-symbolic"@,
            title: "No library synced yet"@,
            description: "This server doesn't have any libraries yet."@,
            details: false,
            buttons: true,
            retry: true,
            login_again: false,
            ..self
        }
    }

    /// Out of the way.
    pub open spec fn hidden(self) -> EmptyView {
        EmptyView { visible: false, spinning: false, ..self }
    }
}

impl EmptyState {
    /// Starts with a sync running: only a sync that has not ended yet leaves
    /// the tab without anything to show.
    pub fn build() -> (r: EmptyState)
        ensures
            r@ == EmptyView::fresh(),
    {
        EmptyState {
            visible: false,
            spinner: false,
            spinning: true,
            icon: false,
            icon_name: String::from_str("folder-music-symbolic"),
            title: String::from_str(""),
            description: String::from_str(""),
            details: false,
            details_text: String::from_str(""),
            buttons: false,
            retry: false,
            login_again: false,
        }.show_syncing()
    }

    pub fn show_syncing(self) -> (r: EmptyState)
        ensures
            r@ == self@.syncing(),
    {
        EmptyState {
            visible: true,
            spinner: true,
            spinning: true,
            icon: false,
            title: String::from_str("Syncing your libraries…"),
            description: String::from_str("This can take a moment on first sync."),
            details: false,
            buttons: false,
            ..self
        }
    }

    pub fn show_error(self, error: &str) -> (r: EmptyState)
        ensures
            r@ == EmptyView::failed(error@),
    {
        EmptyState {
            visible: true,
            spinner: false,
            spinning: false,
            icon: true,
            icon_name: String::from_str("dialog-warning-symbolic"),
            title: String::from_str("Couldn't sync your libraries"),
            description: String::from_str("Check your connection and try again."),
            details: !error.is_empty(),
            details_text: String::from_str(error),
            buttons: true,
            retry: true,
            login_again: false,
        }
    }

    pub fn show_auth_error(self, error: &str) -> (r: EmptyState)
        ensures
            r@ == EmptyView::unauthorized(error@),
    {
        EmptyState {
            visible: true,
            spinner: false,
            spinning: false,
            icon: true,
            icon_name: String::from_str("system-lock-screen-symbolic"),
            title: String::from_str("Sign in again"),
            description: String::from_str("Your session on this server has expired or was revoked."),
            details: !error.is_empty(),
            details_text: String::from_str(error),
            buttons: true,
            retry: true,
            login_again: true,
        }
    }

    pub fn show_empty(self) -> (r: EmptyState)
        ensures
            r@ == self@.nothing(),
    {
        EmptyState {
            visible: true,
            spinner: false,
            spinning: false,
            icon: true,
            icon_name: String::from_str("folder-music-symbolic"),
            title: String::from_str("No library synced yet"),
            description: String::from_str("This server doesn't have any libraries yet."),
            details: false,
            buttons: true,
            retry: true,
            login_again: false,
            ..self
        }
    }

    /// Takes the view out of the way.
    pub fn dismiss(self) -> (r: EmptyState)
        ensures
            r@ == self@.hidden(),
    {
        EmptyState { visible: false, spinning: false, ..self }
    }
}

/// Everything that is loaded for the tab.
#[derive(Clone, Debug)]
pub struct HomeData {
    pub libraries: Vec<Library>,
    /// The items of all libraries.
    pub items: Vec<Item>,
    /// The positions of the items on the "Recently Added" shelf.
    pub recent: Vec<usize>,
    /// The items on the "Continue Listening" shelf.
    pub continue_items: Vec<(Item, Progress)>,
    /// The ids of the items that are downloaded, in whole or in part.
    pub downloaded: Vec<String>,
}

impl HomeData {
    /// The "Recently Added" shelf points into the items.
    pub open spec fn well_formed(self) -> bool {
        forall|i: int| 0 <= i < self.recent.len() ==> (#[trigger] self.recent[i]) < self.items.len()
    }
}

/// The keys by which the newest item comes first.
pub open spec fn added_keys(items: Seq<Item>) -> Seq<Seq<int>> {
    Seq::new(items.len(), |i: int| newest_first(items[i].added_at))
}

/// Whether a list holds the positions of the ten newest items, newest first;
/// items added at the same time stay as they were loaded.
pub open spec fn newest_ten(items: Seq<Item>, list: Seq<usize>) -> bool {
    exists|order: Seq<usize>|
        #[trigger] stable_order(added_keys(items), order) && list == order.take(
            if order.len() < 10 {
                order.len() as int
            } else {
                10
            },
        )
}

/// The positions of the ten newest items, newest first.
pub fn recently_added(items: &Vec<Item>) -> (r: Vec<usize>)
    ensures
        newest_ten(items@, r@),
        forall|i: int| 0 <= i < r.len() ==> (#[trigger] r[i]) < items.len(),
{
    let mut keys: Vec<Vec<i64>> = Vec::new();
    let mut n: usize = 0;
    while n < items.len()
        invariant
            n <= items.len(),
            keys.len() == n,
            forall|i: int| 0 <= i < n ==> ints((#[trigger] keys[i])@) == newest_first(items[i].added_at),
        decreases items.len() - n,
    {
        let t: Timestamp = items[n].added_at;
        let mut key: Vec<i64> = Vec::new();
        key.push(-1 - t.seconds);
        key.push(-1 - t.nanos as i64);
        assert(ints(key@) =~= newest_first(t));
        keys.push(key);
        n = n + 1;
    }
    let mut order = order_of(&keys);
    assert(key_list(keys@) =~= added_keys(items@));
    let ghost full = order@;
    if order.len() > 10 {
        order.truncate(10);
    }
    assert(order@ =~= full.take(
        if full.len() < 10 {
            full.len() as int
        } else {
            10
        },
    ));
    order
}

/// Whether a progress row is worth looking up its item for.
pub fn is_worth_continuing(progress: &Progress) -> (r: bool)
    ensures
        r == !progress.is_finished,
{
    !progress.is_finished
}

/// The "Continue Listening" shelf: the rows that are not finished and whose
/// item was found, in their order.
pub open spec fn continue_shelf(rows: Seq<(Progress, Option<Item>)>) -> Seq<(Item, Progress)>
    decreases rows.len(),
{
    if rows.len() == 0 {
        Seq::empty()
    } else {
        let init = continue_shelf(rows.drop_last());
        match rows.last().1 {
            Some(item) => if rows.last().0.is_finished {
                init
            } else {
                init.push((item, rows.last().0))
            },
            None => init,
        }
    }
}

/// Puts the "Continue Listening" shelf together from the progress rows and the
/// items that were found for them.
pub fn shelve(rows: Vec<(Progress, Option<Item>)>) -> (r: Vec<(Item, Progress)>)
    ensures
        r@ == continue_shelf(rows@),
{
    let ghost all = rows@;
    let mut left = rows;
    let mut shelf: Vec<(Item, Progress)> = Vec::new();
    while left.len() > 0
        invariant
            continue_shelf(all) == continue_shelf(left@) + shelf@,
        decreases left.len(),
    {
        let ghost before = left@;
        let ghost old_shelf = shelf@;
        match left.pop() {
            Some((progress, item)) => {
                assert(left@ =~= before.drop_last());
                match item {
                    Some(item) => {
                        if is_worth_continuing(&progress) {
                            shelf.insert(0, (item, progress));
                            assert(shelf@ =~= seq![(item, progress)] + old_shelf);
                            assert(continue_shelf(before) + old_shelf =~= continue_shelf(left@) + shelf@);
                        }
                    },
                    None => {},
                }
            },
            None => {},
        }
    }
    assert(left@.len() == 0);
    assert(Seq::<(Item, Progress)>::empty() + shelf@ =~= shelf@);
    shelf
}

/// No finished book is on the "Continue Listening" shelf, and nothing that was
/// not in the progress rows.
pub proof fn law_continue_unfinished(rows: Seq<(Progress, Option<Item>)>)
    ensures
        forall|i: int|
            0 <= i < continue_shelf(rows).len() ==> !(#[trigger] continue_shelf(rows)[i]).1.is_finished && exists|
                k: int,
            |
                0 <= k < rows.len() && (#[trigger] rows[k]) == (continue_shelf(rows)[i].1, Some(
                    continue_shelf(rows)[i].0,
                )),
        continue_shelf(rows).len() <= rows.len(),
    decreases rows.len(),
{
    if rows.len() > 0 {
        let init = rows.drop_last();
        law_continue_unfinished(init);
        let shelf = continue_shelf(rows);
        assert forall|i: int| 0 <= i < shelf.len() implies !(#[trigger] shelf[i]).1.is_finished && exists|k: int|
            0 <= k < rows.len() && (#[trigger] rows[k]) == (shelf[i].1, Some(shelf[i].0)) by {
            if i < continue_shelf(init).len() {
                assert(shelf[i] == continue_shelf(init)[i]);
                let k = choose|k: int|
                    0 <= k < init.len() && (#[trigger] init[k]) == (continue_shelf(init)[i].1, Some(
                        continue_shelf(init)[i].0,
                    ));
                assert(rows[k] == init[k]);
            } else {
                assert(rows[rows.len() - 1] == (shelf[i].1, Some(shelf[i].0)));
            }
        }
    }
}

/// Whether one time is not before another.
pub open spec fn no_older(a: Timestamp, b: Timestamp) -> bool {
    a.seconds > b.seconds || (a.seconds == b.seconds && a.nanos >= b.nanos)
}

/// An item that comes before another is not older than it.
proof fn lemma_before_no_older(items: Seq<Item>, x: int, y: int)
    requires
        0 <= x < items.len(),
        0 <= y < items.len(),
        before(added_keys(items), x, y),
    ensures
        no_older(items[x].added_at, items[y].added_at),
{
    let keys = added_keys(items);
    let (ka, kb) = (keys[x], keys[y]);
    assert(ka == newest_first(items[x].added_at) && kb == newest_first(items[y].added_at));
    if lex_less(ka, kb) && ka[0] == kb[0] {
        let (ta, tb) = (ka.skip(1), kb.skip(1));
        assert(lex_less(ta, tb));
        if ta[0] == tb[0] {
            assert(!lex_less(ta.skip(1), tb.skip(1)));
        }
    }
    assert(ka[0] == -1 - items[x].added_at.seconds as int && kb[0] == -1 - items[y].added_at.seconds as int);
    assert(ka[1] == -1 - items[x].added_at.nanos as int && kb[1] == -1 - items[y].added_at.nanos as int);
}

/// The "Recently Added" shelf has ten items, or all where there are fewer, none
/// twice; no item is before a newer one, and no item left out is newer than one
/// on the shelf.
pub proof fn law_recent_newest_first(items: Seq<Item>, list: Seq<usize>)
    requires
        newest_ten(items, list),
    ensures
        list.len() == if items.len() < 10 {
            items.len()
        } else {
            10
        },
        list.no_duplicates(),
        forall|i: int| 0 <= i < list.len() ==> (#[trigger] list[i]) < items.len(),
        forall|i: int, j: int|
            0 <= i < j < list.len() ==> no_older(
                items[#[trigger] list[i] as int].added_at,
                items[#[trigger] list[j] as int].added_at,
            ),
        forall|i: int, x: int|
            #![trigger list[i], items[x]]
            0 <= i < list.len() && 0 <= x < items.len() && !list.contains(x as usize) ==> no_older(
                items[list[i] as int].added_at,
                items[x].added_at,
            ),
{
    let keys = added_keys(items);
    let order = choose|order: Seq<usize>|
        #[trigger] stable_order(keys, order) && list == order.take(
            if order.len() < 10 {
                order.len() as int
            } else {
                10
            },
        );
    lemma_order_distinct(keys, order);
    assert forall|i: int, j: int| 0 <= i < j < list.len() implies no_older(
        items[#[trigger] list[i] as int].added_at,
        items[#[trigger] list[j] as int].added_at,
    ) by {
        assert(list[i] == order[i] && list[j] == order[j]);
        lemma_before_no_older(items, order[i] as int, order[j] as int);
    }
    assert forall|i: int, x: int|
        #![trigger list[i], items[x]]
        0 <= i < list.len() && 0 <= x < items.len() && !list.contains(x as usize) implies no_older(
        items[list[i] as int].added_at,
        items[x].added_at,
    ) by {
        lemma_order_complete(keys, order, x);
        let j = choose|j: int| 0 <= j < order.len() && order[j] == x;
        if j < list.len() {
            assert(list[j] == x);
        }
        assert(list[i] == order[i]);
        lemma_before_no_older(items, order[i] as int, order[j] as int);
    }
}

/// The items alone decide what is on the "Recently Added" shelf.
pub proof fn law_recent_determined(items: Seq<Item>, a: Seq<usize>, b: Seq<usize>)
    requires
        newest_ten(items, a),
        newest_ten(items, b),
    ensures
        a == b,
{
    let keys = added_keys(items);
    let x = choose|order: Seq<usize>|
        #[trigger] stable_order(keys, order) && a == order.take(
            if order.len() < 10 {
                order.len() as int
            } else {
                10
            },
        );
    let y = choose|order: Seq<usize>|
        #[trigger] stable_order(keys, order) && b == order.take(
            if order.len() < 10 {
                order.len() as int
            } else {
                10
            },
        );
    lemma_order_unique(keys, x, y);
}

/// How much of an item has been listened to, in percent.
pub open spec fn percent_listened(item: Item, progress: Progress) -> Num {
    if whole(0).less(item.duration@) {
        clamped(progress.current_time@.over(item.duration@).times(whole(100)), whole(0), whole(100))
    } else {
        whole(0)
    }
}

/// The text below an item on the "Continue Listening" shelf.
pub open spec fn continue_text(item: Item, progress: Progress) -> Seq<char> {
    author_text(item) + " · "@ + units_text(percent_listened(item, progress)) + "% listened"@
}

/// The number in the text below an item on the "Continue Listening" shelf: what
/// stands between the author and the words at its end.
pub open spec fn percent_in(item: Item, text: Seq<char>) -> Seq<char> {
    let author = match item.author {
        Some(author) => author@,
        None => "Unknown author"@,
    };
    text.subrange((author + " · "@).len() as int, text.len() - "% listened"@.len())
}

/// Whether a text names the author of an item, then a number, and then the words
/// for how much was listened to.
pub open spec fn names_percent(item: Item, text: Seq<char>) -> bool {
    let author = match item.author {
        Some(author) => author@,
        None => "Unknown author"@,
    };
    &&& is_number(percent_in(item, text))
    &&& text == author + " · "@ + percent_in(item, text) + "% listened"@
}

proof fn lemma_quanta()
    ensures
        pow2(48) == 0x1_0000_0000_0000,
        pow2(52) == 0x10_0000_0000_0000,
        pow2(53) == 0x20_0000_0000_0000,
        one() >= 0x1_0000_0000_0000_0000 * 0x1_0000_0000_0000_0000,
        infinite() >= 0x1_0000_0000_0000_0000 * one(),
{
    lemma2_to64();
    lemma_pow2_adds(32, 16);
    lemma_pow2_adds(32, 20);
    lemma_pow2_adds(32, 21);
    lemma_pow2_adds(64, 64);
    lemma_pow2_strictly_increases(128, 1074);
    lemma_pow2_adds(64, 1074);
    lemma_pow2_strictly_increases(1138, 2098);
}

/// What is shown of a percentage that is not negative and not beyond the limits.
proof fn lemma_percent_text(item: Item, progress: Progress)
    requires
        !percent_listened(item, progress).nan,
        !percent_listened(item, progress).neg,
        !percent_listened(item, progress).is_infinite(),
    ensures
        ({
            let (text, x) = (continue_text(item, progress), percent_listened(item, progress));
            &&& names_percent(item, text)
            &&& percent_in(item, text) == units_text(x)
            &&& number_in(percent_in(item, text)) == half_even(x.mag, one())
        }),
{
    let (text, x) = (continue_text(item, progress), percent_listened(item, progress));
    law_units_read_back(x);
    law_digits_read_back(half_even(x.mag, one()));
    reveal_strlit("");
    assert(units_text(x) =~= crate::text::digits(half_even(x.mag, one())));
    assert(percent_in(item, text) =~= units_text(x));
}

/// From the two roundings on the way to the share itself.
#[verifier::spinoff_prover]
proof fn lemma_percent_bound(u: int, v: int, q: int, a: int, b: int, o: int)
    requires
        0 <= a <= b,
        b > 0,
        q >= 0,
        v >= 0,
        o >= 0x1_0000_0000_0000_0000 * 0x1_0000_0000_0000_0000,
        0x20_0000_0000_0000 * apart(q * b, a * o) <= a * o + 0x10_0000_0000_0000 * b,
        0x20_0000_0000_0000 * apart(v, 100 * q) <= 100 * q + 0x10_0000_0000_0000,
        2 * apart(
            u * o,
            if v > 100 * o {
                100 * o
            } else {
                v
            },
        ) <= o,
    ensures
        0x1_0000_0000_0000 * (2 * apart(u * b, 100 * a) - b) <= b + 100 * a,
{
    let held = if v > 100 * o {
        100 * o
    } else {
        v
    };
    let m = 0x20_0000_0000_0000int;
    let e1 = apart(q * b, a * o);
    let e2 = apart(v, 100 * q);
    let e3 = apart(u * o, held);
    let (ao, bo, qb) = (a * o, b * o, q * b);
    assert(0 <= ao <= bo && bo >= b * 0x1_0000_0000_0000_0000 && qb >= 0) by (nonlinear_arith)
        requires
            ao == a * o,
            bo == b * o,
            qb == q * b,
            0 <= a <= b,
            q >= 0,
            o >= 0x1_0000_0000_0000_0000 * 0x1_0000_0000_0000_0000,
    ;
    let (vb, hb) = (v * b, held * b);
    assert(hb == if v > 100 * o {
        100 * bo
    } else {
        vb
    }) by (nonlinear_arith)
        requires
            held == if v > 100 * o {
                100 * o
            } else {
                v
            },
            hb == held * b,
            vb == v * b,
            bo == b * o,
    ;
    assert(v > 100 * o ==> vb >= 100 * bo) by (nonlinear_arith)
        requires
            vb == v * b,
            bo == b * o,
            b > 0,
    ;
    assert(apart(vb, 100 * qb) == e2 * b) by (nonlinear_arith)
        requires
            vb == v * b,
            qb == q * b,
            e2 == apart(v, 100 * q),
            b > 0,
    ;
    assert(m * (e2 * b) <= 100 * qb + 0x10_0000_0000_0000 * b) by (nonlinear_arith)
        requires
            m * e2 <= 100 * q + 0x10_0000_0000_0000,
            qb == q * b,
            b > 0,
    ;
    // the share that is held is no farther from the true one
    assert(apart(hb, 100 * ao) <= apart(vb, 100 * ao));
    assert(apart(vb, 100 * ao) <= e2 * b + 100 * e1);
    let ub = u * b;
    let ubo = ub * o;
    assert(apart(ubo, hb) == e3 * b) by (nonlinear_arith)
        requires
            ubo == (u * b) * o,
            hb == held * b,
            e3 == apart(u * o, held),
            b > 0,
    ;
    assert(2 * (e3 * b) <= bo) by (nonlinear_arith)
        requires
            2 * e3 <= o,
            bo == b * o,
            b > 0,
    ;
    let gap = apart(ubo, 100 * ao);
    let e2b = e2 * b;
    let e3b = e3 * b;
    assert(gap <= e3b + e2b + 100 * e1);
    assert(m * (2 * gap - bo) <= 1000 * ao + bo) by (nonlinear_arith)
        requires
            gap <= e3b + e2b + 100 * e1,
            2 * e3b <= bo,
            m * e2b <= 100 * qb + 0x10_0000_0000_0000 * b,
            m * e1 <= ao + 0x10_0000_0000_0000 * b,
            qb <= ao + e1,
            bo >= b * 0x1_0000_0000_0000_0000,
            b > 0,
            ao >= 0,
            m == 0x20_0000_0000_0000,
    ;
    let g = apart(ub, 100 * a);
    assert(gap == g * o) by (nonlinear_arith)
        requires
            gap == apart(ub * o, 100 * (a * o)),
            g == apart(ub, 100 * a),
            o > 0,
    ;
    assert(m * (2 * g - b) <= 1000 * a + b) by (nonlinear_arith)
        requires
            m * (2 * (g * o) - b * o) <= 1000 * (a * o) + b * o,
            o > 0,
    ;
}

/// How much was listened to is the position's share of the length of the item in
/// percent, to the nearest.
#[verifier::spinoff_prover]
pub proof fn law_percent(item: Item, progress: Progress)
    requires
        !item.duration@.nan && !item.duration@.neg && !item.duration@.is_infinite(),
        !progress.current_time@.nan && !progress.current_time@.neg,
        item.duration@.mag > 0,
        progress.current_time@.mag <= item.duration@.mag,
    ensures
        names_percent(item, continue_text(item, progress)),
        within(
            number_in(percent_in(item, continue_text(item, progress))),
            item.duration@.mag,
            100 * progress.current_time@.mag,
        ),
{
    lemma_quanta();
    let (p, d) = (progress.current_time@, item.duration@);
    let (a, b, o) = (p.mag, d.mag, one());
    lemma_percent_share(p, d);
    lemma_percent_text(item, progress);
    let x = percent_listened(item, progress);
    let q = nearest(a * o, b);
    let v = nearest(q * (100 * o), o);
    crate::rounding::law_half_even(x.mag, o);
    let u = half_even(x.mag, o);
    lemma_percent_bound(u as int, v as int, q as int, a as int, b as int, o as int);
}

/// The share as it is computed.
#[verifier::spinoff_prover]
proof fn lemma_percent_share(p: Num, d: Num)
    requires
        !d.nan && !d.neg && !d.is_infinite(),
        !p.nan && !p.neg,
        d.mag > 0,
        p.mag <= d.mag,
    ensures
        ({
            let (a, b, o) = (p.mag, d.mag, one());
            let q = nearest(a * o, b);
            let v = nearest(q * (100 * o), o);
            let x = clamped(p.over(d).times(whole(100)), whole(0), whole(100));
            &&& whole(0).less(d)
            &&& !x.nan && !x.neg && !x.is_infinite()
            &&& x.mag == if v > 100 * o {
                100 * o
            } else {
                v
            }
            &&& pow2(53) * apart((q * b) as int, (a * o) as int) <= a * o + pow2(52) * b
            &&& pow2(53) * apart(v as int, 100 * q as int) <= 100 * q + pow2(52)
        }),
{
    lemma_quanta();
    let (a, b, o) = (p.mag, d.mag, one());
    let q = nearest(a * o, b);
    let v = nearest(q * (100 * o), o);
    lemma_pow2_pos(53);
    lemma_whole_value(100);
    assert(0 * o == 0);
    law_nearest(a * o, b);
    law_nearest(q * (100 * o), o);
    let (vi, qi, oi) = (v as int, q as int, o as int);
    assert(qi * (100 * oi) == (100 * qi) * oi) by (nonlinear_arith);
    let gap = apart(vi, 100 * qi);
    assert(apart(vi * oi, (100 * qi) * oi) == gap * oi) by (nonlinear_arith)
        requires
            gap == apart(vi, 100 * qi),
            oi > 0,
    ;
    let (m, h) = (pow2(53) as int, pow2(52) as int);
    assert(m * gap <= 100 * qi + h) by (nonlinear_arith)
        requires
            m * (gap * oi) <= (100 * qi) * oi + h * oi,
            oi > 0,
    ;
    // a share is at most one
    assert(a * o <= b * o) by (nonlinear_arith)
        requires
            a <= b,
    ;
    law_nearest_ordered(a * o, b * o, b);
    lemma_nearest_ratio(b * o, b, o, 1);
    lemma_nearest_representable(1, 1074);
    assert(1 * pow2(1074) == o);
    assert(q <= o);
    assert(!p.over(d).is_infinite());
}

/// Only the share counts: items of one author with the same share of their length
/// behind them have the same text, whatever their lengths.
#[verifier::spinoff_prover]
pub proof fn law_percent_is_a_share(item: Item, progress: Progress, other: Item, later: Progress)
    requires
        !item.duration@.nan && !item.duration@.neg && !item.duration@.is_infinite() && item.duration@.mag > 0,
        !other.duration@.nan && !other.duration@.neg && !other.duration@.is_infinite() && other.duration@.mag > 0,
        !progress.current_time@.nan && !progress.current_time@.neg && !progress.current_time@.is_infinite(),
        !later.current_time@.nan && !later.current_time@.neg && !later.current_time@.is_infinite(),
        progress.current_time@.mag * other.duration@.mag == later.current_time@.mag * item.duration@.mag,
        item.author == other.author,
    ensures
        continue_text(item, progress) == continue_text(other, later),
{
    lemma_quanta();
    let (a, b) = (progress.current_time@.mag, item.duration@.mag);
    let (c, d) = (later.current_time@.mag, other.duration@.mag);
    let o = one();
    assert(0 * o == 0);
    assert((a * o) * d == (c * o) * b) by (nonlinear_arith)
        requires
            a * d == c * b,
    ;
    lemma_nearest_ratio(a * o, b, c * o, d);
}

/// Who has listened further sees no smaller number; nothing listened to is 0, all
/// of it, or more, is 100.
#[verifier::spinoff_prover]
pub proof fn law_percent_rises(item: Item, progress: Progress, later: Progress)
    requires
        !item.duration@.nan && !item.duration@.neg && !item.duration@.is_infinite() && item.duration@.mag > 0,
        !progress.current_time@.nan && !progress.current_time@.neg,
        !later.current_time@.nan && !later.current_time@.neg,
        progress.current_time@.mag <= later.current_time@.mag <= item.duration@.mag,
    ensures
        number_in(percent_in(item, continue_text(item, progress))) <= number_in(
            percent_in(item, continue_text(item, later)),
        ) <= 100,
        progress.current_time@.mag == 0 ==> number_in(percent_in(item, continue_text(item, progress))) == 0,
        later.current_time@.mag == item.duration@.mag ==> number_in(percent_in(item, continue_text(item, later))) == 100,
{
    lemma_quanta();
    let (p, l, d) = (progress.current_time@, later.current_time@, item.duration@);
    let (a, c, b, o) = (p.mag, l.mag, d.mag, one());
    lemma_percent_share(p, d);
    lemma_percent_share(l, d);
    lemma_percent_text(item, progress);
    lemma_percent_text(item, later);
    assert(a * o <= c * o) by (nonlinear_arith)
        requires
            a <= c,
    ;
    law_nearest_ordered(a * o, c * o, b);
    let (q, r) = (nearest(a * o, b), nearest(c * o, b));
    assert(q * (100 * o) <= r * (100 * o)) by (nonlinear_arith)
        requires
            q <= r,
    ;
    law_nearest_ordered(q * (100 * o), r * (100 * o), o);
    let (x, y) = (percent_listened(item, progress), percent_listened(item, later));
    law_half_even_ordered(x.mag, y.mag, o);
    law_half_even_ordered(y.mag, 100 * o, o);
    crate::rounding::lemma_half_even_whole(100, o);
    if a == 0 {
        crate::double::lemma_zero_nearest(0, b);
        assert(0 * (100 * o) == 0 && 0 * o == 0);
        crate::double::lemma_zero_nearest(0, o);
        crate::rounding::lemma_half_even_whole(0, o);
    }
    if c == b {
        lemma_nearest_ratio(b * o, b, o, 1);
        lemma_pow2_pos(53);
        lemma_nearest_representable(1, 1074);
        assert(1 * pow2(1074) == o);
        lemma_nearest_ratio(o * (100 * o), o, 100 * o, 1);
        lemma_nearest_representable(100, 1074);
    }
}

/// Beyond its end an item has been listened to in full; without a length nothing
/// has been listened to.
#[verifier::spinoff_prover]
pub proof fn law_percent_held(item: Item, progress: Progress)
    requires
        !progress.current_time@.nan && !progress.current_time@.neg && !progress.current_time@.is_infinite(),
    ensures
        !item.duration@.nan && !item.duration@.neg && !item.duration@.is_infinite() && 0 < item.duration@.mag
            <= progress.current_time@.mag ==> number_in(percent_in(item, continue_text(item, progress))) == 100,
        item.duration@.nan || item.duration@.value() <= 0 ==> number_in(
            percent_in(item, continue_text(item, progress)),
        ) == 0,
{
    lemma_quanta();
    let (p, d, o) = (progress.current_time@, item.duration@, one());
    lemma_pow2_pos(53);
    lemma_whole_value(0);
    if !d.nan && !d.neg && !d.is_infinite() && 0 < d.mag <= p.mag {
        lemma_percent_beyond(p, d);
        lemma_percent_text(item, progress);
        crate::rounding::lemma_half_even_whole(100, o);
    }
    if d.nan || d.value() <= 0 {
        assert(0 * o == 0);
        assert(percent_listened(item, progress) == whole(0));
        lemma_percent_text(item, progress);
        crate::rounding::lemma_half_even_whole(0, o);
    }
}

/// From the end of an item on, its share is held to all of it.
#[verifier::spinoff_prover]
proof fn lemma_percent_beyond(p: Num, d: Num)
    requires
        !p.nan && !p.neg && !p.is_infinite(),
        !d.nan && !d.neg && !d.is_infinite(),
        0 < d.mag <= p.mag,
    ensures
        ({
            let x = clamped(p.over(d).times(whole(100)), whole(0), whole(100));
            &&& whole(0).less(d)
            &&& !x.nan && !x.neg && !x.is_infinite()
            &&& x.mag == 100 * one()
        }),
{
    lemma_quanta();
    let (a, b, o) = (p.mag, d.mag, one());
    lemma_pow2_pos(53);
    lemma_whole_value(100);
    lemma_whole_value(0);
    assert(0 * o == 0);
    assert(b * o <= a * o) by (nonlinear_arith)
        requires
            b <= a,
    ;
    law_nearest_ordered(b * o, a * o, b);
    lemma_nearest_ratio(b * o, b, o, 1);
    lemma_nearest_representable(1, 1074);
    assert(1 * pow2(1074) == o);
    let share = p.over(d);
    assert(!share.nan && !share.neg);
    assert(share.mag >= o);
    let hundredfold = share.times(whole(100));
    if !share.is_infinite() {
        let q = share.mag;
        assert(o * (100 * o) <= q * (100 * o)) by (nonlinear_arith)
            requires
                o <= q,
        ;
        law_nearest_ordered(o * (100 * o), q * (100 * o), o);
        lemma_nearest_ratio(o * (100 * o), o, 100 * o, 1);
        lemma_nearest_representable(100, 1074);
    }
    assert(!hundredfold.nan && !hundredfold.neg);
    assert(hundredfold.mag >= 100 * o);
}

/// The text below an item on the "Continue Listening" shelf.
pub fn continue_subtitle(item: &Item, progress: &Progress) -> (r: String)
    ensures
        r@ == continue_text(*item, *progress),
{
    let zero = Double::from_u64(0);
    let percent = if zero.less(item.duration) {
        progress.current_time.over(item.duration).times(Double::from_u64(100)).clamped(zero, Double::from_u64(100))
    } else {
        zero
    };
    let number = percent.units_text();
    author_or_unknown(item).concat(" · ").concat(number.as_str()).concat("% listened")
}

/// The icon of a library.
pub fn library_icon(library: &Library) -> (r: String)
    ensures
        r@ == if library.media_type@ == "podcast"@ {
            "audio-input-microphone-symbolic"@
        } else {
            "system-file-manager-symbolic"@
        },
{
    if library.media_type == String::from_str("podcast") {
        String::from_str("audio-input-microphone-symbolic")
    } else {
        String::from_str("system-file-manager-symbolic")
    }
}

/// A card on a shelf.
#[derive(Clone, Debug)]
pub struct Card {
    /// The position of what it shows: of an item on the "Recently Added"
    /// shelf, of an entry on the "Continue Listening" shelf.
    pub position: usize,
    pub subtitle: String,
    pub downloaded: bool,
}

/// A card on a shelf.
pub struct CardView {
    pub position: usize,
    pub subtitle: Seq<char>,
    pub downloaded: bool,
}

impl View for Card {
    type V = CardView;

    open spec fn view(&self) -> CardView {
        CardView { position: self.position, subtitle: self.subtitle@, downloaded: self.downloaded }
    }
}

/// The cards of a shelf.
pub open spec fn card_views(cards: Seq<Card>) -> Seq<CardView> {
    cards.map_values(|c: Card| c@)
}

/// The first `n` entries of the "Continue Listening" shelf as cards; offline,
/// only what is downloaded.
pub open spec fn continue_cards(data: HomeData, offline: bool, n: nat) -> Seq<CardView>
    decreases n,
{
    if n == 0 {
        Seq::empty()
    } else {
        let (item, progress) = data.continue_items[n - 1];
        let downloaded = listed(data.downloaded@, item.id@);
        let init = continue_cards(data, offline, (n - 1) as nat);
        if offline && !downloaded {
            init
        } else {
            init.push(
                CardView { position: (n - 1) as usize, subtitle: continue_text(item, progress), downloaded },
            )
        }
    }
}

/// The first `n` items of the "Recently Added" shelf as cards; offline, only
/// what is downloaded.
pub open spec fn recent_cards(data: HomeData, offline: bool, n: nat) -> Seq<CardView>
    decreases n,
{
    if n == 0 {
        Seq::empty()
    } else {
        let position = data.recent[n - 1];
        let item = data.items[position as int];
        let downloaded = listed(data.downloaded@, item.id@);
        let init = recent_cards(data, offline, (n - 1) as nat);
        if offline && !downloaded {
            init
        } else {
            init.push(CardView { position, subtitle: subtitle(item), downloaded })
        }
    }
}

fn cards_to_continue(data: &HomeData, offline: bool) -> (r: Vec<Card>)
    ensures
        card_views(r@) == continue_cards(*data, offline, data.continue_items.len() as nat),
{
    let mut cards: Vec<Card> = Vec::new();
    let mut n: usize = 0;
    assert(card_views(cards@) =~= continue_cards(*data, offline, 0));
    while n < data.continue_items.len()
        invariant
            n <= data.continue_items.len(),
            card_views(cards@) == continue_cards(*data, offline, n as nat),
        decreases data.continue_items.len() - n,
    {
        let entry = &data.continue_items[n];
        let downloaded: bool = is_listed(&data.downloaded, &entry.0.id);
        let ghost before = cards@;
        if !(offline && !downloaded) {
            cards.push(Card { position: n, subtitle: continue_subtitle(&entry.0, &entry.1), downloaded });
            assert(card_views(cards@) =~= card_views(before).push(cards[cards.len() - 1]@));
        }
        n = n + 1;
    }
    cards
}

fn cards_recently_added(data: &HomeData, offline: bool) -> (r: Vec<Card>)
    requires
        data.well_formed(),
    ensures
        card_views(r@) == recent_cards(*data, offline, data.recent.len() as nat),
{
    let mut cards: Vec<Card> = Vec::new();
    let mut n: usize = 0;
    assert(card_views(cards@) =~= recent_cards(*data, offline, 0));
    while n < data.recent.len()
        invariant
            n <= data.recent.len(),
            data.well_formed(),
            card_views(cards@) == recent_cards(*data, offline, n as nat),
        decreases data.recent.len() - n,
    {
        let position: usize = data.recent[n];
        let item = &data.items[position];
        let downloaded: bool = is_listed(&data.downloaded, &item.id);
        let ghost before = cards@;
        if !(offline && !downloaded) {
            cards.push(Card { position, subtitle: item_subtitle(item), downloaded });
            assert(card_views(cards@) =~= card_views(before).push(cards[cards.len() - 1]@));
        }
        n = n + 1;
    }
    cards
}

/// Puts what was read from local storage together: the libraries, the items of
/// all of them, the latest progress rows with the items found for them, and
/// what is downloaded.
pub fn assemble(
    libraries: Vec<Library>,
    items: Vec<Item>,
    rows: Vec<(Progress, Option<Item>)>,
    downloaded: Vec<String>,
) -> (r: HomeData)
    ensures
        r.well_formed(),
        r.libraries == libraries,
        r.items == items,
        newest_ten(items@, r.recent@),
        r.continue_items@ == continue_shelf(rows@),
        r.downloaded == downloaded,
{
    let recent = recently_added(&items);
    HomeData { libraries, items, recent, continue_items: shelve(rows), downloaded }
}

/// Whether an id is that of an item on one of the shelves.
pub open spec fn on_a_shelf(data: HomeData, id: Seq<char>) -> bool {
    ||| exists|i: int| 0 <= i < data.recent.len() && data.items[#[trigger] data.recent[i] as int].id@ == id
    ||| exists|i: int| 0 <= i < data.continue_items.len() && (#[trigger] data.continue_items[i]).0.id@ == id
}

/// The ids of the items on the shelves, each once, in order: those to fetch
/// covers for.
pub fn cover_ids(data: &HomeData) -> (r: Vec<String>)
    requires
        data.well_formed(),
    ensures
        forall|id: Seq<char>| #[trigger] listed(r@, id) == on_a_shelf(*data, id),
        ascending(r@),
{
    let mut ids: Vec<String> = Vec::new();
    let mut n: usize = 0;
    while n < data.recent.len()
        invariant
            n <= data.recent.len(),
            data.well_formed(),
            ids.len() == n,
            forall|i: int| 0 <= i < n ==> (#[trigger] ids[i])@ == data.items[data.recent[i] as int].id@,
        decreases data.recent.len() - n,
    {
        ids.push(data.items[data.recent[n]].id.clone());
        n = n + 1;
    }
    let ghost half = data.recent.len() as int;
    let mut m: usize = 0;
    while m < data.continue_items.len()
        invariant
            m <= data.continue_items.len(),
            half == data.recent.len(),
            ids.len() == half + m,
            forall|i: int| 0 <= i < half ==> (#[trigger] ids[i])@ == data.items[data.recent[i] as int].id@,
            forall|i: int| half <= i < half + m ==> (#[trigger] ids[i])@ == data.continue_items[i - half].0.id@,
        decreases data.continue_items.len() - m,
    {
        ids.push(data.continue_items[m].0.id.clone());
        m = m + 1;
    }
    let r = sorted_unique(&ids);
    proof {
        assert forall|id: Seq<char>| #[trigger] listed(r@, id) == on_a_shelf(*data, id) by {
            assert(listed(r@, id) == listed(ids@, id));
            if listed(ids@, id) {
                let i = choose|i: int| 0 <= i < ids.len() && #[trigger] ids[i]@ == id;
                if i < half {
                    assert(data.items[data.recent[i] as int].id@ == id);
                } else {
                    assert(data.continue_items[i - half].0.id@ == id);
                }
            }
            if on_a_shelf(*data, id) {
                if exists|i: int|
                    0 <= i < data.recent.len() && data.items[#[trigger] data.recent[i] as int].id@ == id {
                    let i = choose|i: int|
                        0 <= i < data.recent.len() && data.items[#[trigger] data.recent[i] as int].id@ == id;
                    assert(ids[i]@ == id);
                } else {
                    let i = choose|i: int|
                        0 <= i < data.continue_items.len() && (#[trigger] data.continue_items[i]).0.id@ == id;
                    assert(ids[half + i]@ == id);
                }
            }
        }
    }
    r
}

/// The state of the tab.
#[derive(Clone, Debug)]
pub struct HomeScreen {
    pub empty_state: EmptyState,
    pub scroller_visible: bool,
    pub continue_visible: bool,
    pub continue_row: Vec<Card>,
    pub recent_row: Vec<Card>,
    /// What was last shown.
    pub last_data: Option<HomeData>,
    pub banner: Banner,
    pub manual: ManualSync,
    pub offline: bool,
    pub offline_banner: bool,
}

/// The tab before anything is loaded.
pub fn build() -> (r: HomeScreen)
    ensures
        r.consistent(),
        r.empty_state@ == EmptyView::fresh(),
        !r.scroller_visible,
        !r.continue_visible,
        r.continue_row.len() == 0,
        r.recent_row.len() == 0,
        r.last_data is None,
        r.banner@ == no_banner(),
        !r.manual.in_flight,
        !r.offline,
{
    HomeScreen {
        empty_state: EmptyState::build(),
        scroller_visible: false,
        continue_visible: false,
        continue_row: Vec::new(),
        recent_row: Vec::new(),
        last_data: None,
        banner: Banner::new(),
        manual: ManualSync::new(),
        offline: false,
        offline_banner: false,
    }
}

/// Whether `after` is `before` showing what has been loaded.
pub open spec fn applied(before: HomeScreen, data: HomeData, after: HomeScreen) -> bool {
    &&& after == (HomeScreen {
        empty_state: after.empty_state,
        scroller_visible: data.libraries.len() > 0,
        continue_visible: after.continue_row.len() > 0,
        continue_row: after.continue_row,
        recent_row: after.recent_row,
        last_data: Some(data),
        ..before
    })
    &&& after.empty_state@ == if data.libraries.len() > 0 {
        before.empty_state@.hidden()
    } else {
        before.empty_state@
    }
    &&& card_views(after.continue_row@) == continue_cards(data, before.offline, data.continue_items.len() as nat)
    &&& card_views(after.recent_row@) == recent_cards(data, before.offline, data.recent.len() as nat)
}

/// The outcome of a cycle: over content a failure shows in the banner; without
/// content the view that stands in for the shelves tells the whole story.
pub open spec fn resolved(before: HomeScreen, outcome: SyncOutcome, has_data: bool, after: HomeScreen) -> bool {
    &&& after == (HomeScreen {
        empty_state: after.empty_state,
        banner: after.banner,
        scroller_visible: before.scroller_visible && has_data,
        ..before
    })
    &&& after.empty_state@ == if has_data {
        before.empty_state@.hidden()
    } else {
        match outcome {
            SyncOutcome::Synced => before.empty_state@.nothing(),
            SyncOutcome::Unauthorized(error) => EmptyView::unauthorized(error@),
            SyncOutcome::Failed(error) => EmptyView::failed(error@),
        }
    }
    &&& after.banner@ == if has_data {
        banner_after(before.banner@, outcome)
    } else {
        BannerView { revealed: false, ..before.banner@ }
    }
}

/// Whether what was read holds any library to show.
pub open spec fn any_library(data: Option<HomeData>) -> bool {
    data matches Some(d) && d.libraries.len() > 0
}

/// Whether `after` is `before` showing what was read, if that can be shown.
pub open spec fn taken(before: HomeScreen, data: Option<HomeData>, after: HomeScreen) -> bool {
    if any_library(data) {
        applied(before, data->0, after)
    } else {
        after == before
    }
}

/// Whether `after` is `before` at the end of a cycle: the outcome shows, and the
/// guard of a manual cycle is released.
pub open spec fn ended(
    before: HomeScreen,
    manual: bool,
    outcome: SyncOutcome,
    has_data: bool,
    after: HomeScreen,
    action: CycleAction,
) -> bool {
    &&& resolved(before, outcome, has_data, HomeScreen { manual: before.manual, ..after })
    &&& after.manual == before.manual.released(manual)
    &&& action matches CycleAction::End(toast) && text_view(toast) == announcement(manual, outcome)
}

/// Whether a cycle has anything to show its outcome over once what is stored was
/// read after the sync: what was read or, where that failed, the shelves that are
/// up already.
pub open spec fn has_content(screen: HomeScreen, data: Option<HomeData>) -> bool {
    match data {
        Some(data) => data.libraries.len() > 0,
        None => screen.scroller_visible,
    }
}

/// One step of a cycle. The end comes with the outcome, in one step.
pub open spec fn cycle_stepped(
    before: HomeScreen,
    cycle: Cycle,
    event: CycleEvent<HomeData>,
    after: HomeScreen,
    next: Cycle,
    action: CycleAction,
) -> bool {
    &&& next == (Cycle {
        stage: stage_after(cycle.stage, event, event matches CycleEvent::Read(data) && any_library(data)),
        ..cycle
    })
    &&& match (cycle.stage, event) {
        (Stage::Reading, CycleEvent::Read(data)) => taken(before, data, after) && action is Sync,
        (Stage::Syncing, CycleEvent::Synced(_)) => after == before && action is Read,
        (Stage::Rereading(outcome), CycleEvent::Read(data)) => if any_library(data) {
            &&& applied(before, data->0, after)
            &&& action matches CycleAction::Fetch(ids) && (forall|id: Seq<char>| #[trigger]
                listed(ids@, id) == on_a_shelf(data->0, id)) && ascending(ids@)
        } else {
            ended(before, cycle.manual, outcome, has_content(before, data), after, action)
        },
        (Stage::Fetching(_), CycleEvent::Fetched) => after == before && action is Read,
        (Stage::Covering(outcome), CycleEvent::Read(data)) => exists|shown: HomeScreen| #[trigger]
            taken(before, data, shown) && ended(shown, cycle.manual, outcome, true, after, action),
        _ => after == before && action is Nothing,
    }
}

/// Whether these are steps of one cycle, in order. Between them the screen may
/// have changed in any way.
pub open spec fn cycle_ran(start: Cycle, steps: Seq<CycleStep<HomeScreen, HomeData>>) -> bool {
    forall|i: int|
        0 <= i < steps.len() ==> cycle_stepped(
            (#[trigger] steps[i]).before,
            cycle_at(start, steps, i),
            steps[i].event,
            steps[i].after,
            steps[i].cycle,
            steps[i].action,
        )
}

/// Whether the screen tells how a sync ended: in the banner, over content, or in
/// the view that stands in.
pub open spec fn tells(screen: HomeScreen, outcome: SyncOutcome) -> bool {
    if screen.empty_state.visible {
        &&& !screen.banner.revealed
        &&& screen.empty_state@ == match outcome {
            SyncOutcome::Synced => screen.empty_state@.nothing(),
            SyncOutcome::Unauthorized(error) => EmptyView::unauthorized(error@),
            SyncOutcome::Failed(error) => EmptyView::failed(error@),
        }
    } else {
        screen.banner@ == banner_after(screen.banner@, outcome)
    }
}

/// A cycle ends once, and no step but that one touches the guard or announces
/// anything. With that step the screen tells how the sync of the cycle ended, the
/// guard of a manual cycle is released, and its announcement says the same.
pub proof fn law_cycle_ends_once(manual: bool, steps: Seq<CycleStep<HomeScreen, HomeData>>)
    requires
        cycle_ran(Cycle { manual, stage: Stage::Reading }, steps),
    ensures
        ({
            let start = Cycle { manual, stage: Stage::Reading };
            &&& staged(start, steps)
            &&& forall|i: int, j: int|
                0 <= i < j < steps.len() ==> !((#[trigger] steps[i]).action is End && (#[trigger] steps[j]).action is End)
            &&& cycle_at(start, steps, steps.len() as int).stage is Ended <==> exists|i: int|
                0 <= i < steps.len() && (#[trigger] steps[i]).action is End
            &&& forall|i: int|
                0 <= i < steps.len() && (#[trigger] steps[i]).action !is End ==> steps[i].after.manual
                    == steps[i].before.manual
            &&& forall|i: int|
                0 <= i < steps.len() && (#[trigger] steps[i]).action is End ==> exists|outcome: SyncOutcome|
                    {
                        &&& #[trigger] synced_so(start, steps, i, outcome)
                        &&& tells(steps[i].after, outcome)
                        &&& steps[i].after.manual == steps[i].before.manual.released(manual)
                        &&& text_view(steps[i].action->End_0) == announcement(manual, outcome)
                    }
        }),
{
    let start = Cycle { manual, stage: Stage::Reading };
    assert(staged(start, steps)) by {
        assert forall|i: int| 0 <= i < steps.len() implies {
            let at = cycle_at(start, steps, i);
            let step = #[trigger] steps[i];
            &&& step.cycle.manual == at.manual
            &&& step.cycle.stage == stage_after(at.stage, step.event, true) || step.cycle.stage == stage_after(
                at.stage,
                step.event,
                false,
            )
            &&& step.action is End <==> at.stage !is Ended && step.cycle.stage is Ended
        } by {
            let at = cycle_at(start, steps, i);
            assert(cycle_stepped(steps[i].before, at, steps[i].event, steps[i].after, steps[i].cycle, steps[i].action));
        }
    }
    assert forall|i: int, j: int| 0 <= i < j < steps.len() implies !((#[trigger] steps[i]).action is End && (
    #[trigger] steps[j]).action is End) by {
        if steps[i].action is End {
            lemma_ends_once(manual, steps, i, j);
        }
    }
    lemma_cycle_at(manual, steps, steps.len() as int);
    assert forall|i: int| 0 <= i < steps.len() && (#[trigger] steps[i]).action is End implies exists|
        outcome: SyncOutcome,
    |
        {
            &&& #[trigger] synced_so(start, steps, i, outcome)
            &&& tells(steps[i].after, outcome)
            &&& steps[i].after.manual == steps[i].before.manual.released(manual)
            &&& text_view(steps[i].action->End_0) == announcement(manual, outcome)
        } by {
        lemma_cycle_at(manual, steps, i);
        let at = cycle_at(start, steps, i);
        let step = steps[i];
        assert(cycle_stepped(step.before, at, step.event, step.after, step.cycle, step.action));
        match at.stage {
            Stage::Rereading(outcome) => {
                assert(synced_so(start, steps, i, outcome));
            },
            Stage::Covering(outcome) => {
                assert(synced_so(start, steps, i, outcome));
            },
            _ => {},
        }
    }
}

impl HomeScreen {
    /// What every surface says of the state agrees with it; the view that stands in
    /// never shows together with the banner or with the shelves that it stands for.
    pub open spec fn consistent(self) -> bool {
        &&& self.offline_banner == self.offline
        &&& !(self.banner.revealed && self.empty_state.visible)
        &&& !(self.empty_state.visible && self.scroller_visible)
        &&& self.continue_visible == (self.continue_row.len() > 0)
        &&& self.last_data matches Some(data) ==> data.well_formed()
    }

    /// Shows what has been loaded.
    pub fn apply(self, data: HomeData) -> (r: HomeScreen)
        requires
            data.well_formed(),
        ensures
            applied(self, data, r),
            self.consistent() ==> r.consistent(),
    {
        let has_libraries: bool = data.libraries.len() > 0;
        let empty_state = if has_libraries {
            self.empty_state.dismiss()
        } else {
            self.empty_state
        };
        let continue_row = cards_to_continue(&data, self.offline);
        let recent_row = cards_recently_added(&data, self.offline);
        HomeScreen {
            empty_state,
            scroller_visible: has_libraries,
            continue_visible: continue_row.len() > 0,
            continue_row,
            recent_row,
            last_data: Some(data),
            ..self
        }
    }

    /// A sync cycle is asked for. A manual one is refused while another manual
    /// one is in flight; an automatic one never is. The cycle starts with reading
    /// what is stored locally.
    pub fn cycle_asked(self, manual: bool) -> (r: (HomeScreen, Option<Cycle>))
        ensures
            r.1 == if manual && self.manual.in_flight {
                None
            } else {
                Some(Cycle { manual, stage: Stage::Reading })
            },
            r.0 == (HomeScreen { manual: ManualSync { in_flight: self.manual.in_flight || manual }, ..self }),
            r.1 is None ==> r.0 == self,
            self.consistent() ==> r.0.consistent(),
    {
        if manual {
            let mut guard = self.manual;
            let granted: bool = guard.claim();
            let cycle = if granted {
                Some(Cycle { manual, stage: Stage::Reading })
            } else {
                None
            };
            (HomeScreen { manual: guard, ..self }, cycle)
        } else {
            (self, Some(Cycle { manual, stage: Stage::Reading }))
        }
    }

    /// What is stored locally has been loaded; `None` where that failed. Shelves
    /// without a single library are not shown.
    pub fn loaded(self, data: Option<HomeData>) -> (r: HomeScreen)
        requires
            data matches Some(d) ==> d.well_formed(),
        ensures
            taken(self, data, r),
            self.consistent() ==> r.consistent(),
    {
        match data {
            Some(data) => {
                if data.libraries.len() > 0 {
                    self.apply(data)
                } else {
                    self
                }
            },
            None => self,
        }
    }

    /// The sync has ended and what is stored locally has been loaded again. The
    /// ids to fetch covers for; none without a library.
    pub fn synced(self, data: Option<HomeData>) -> (r: (HomeScreen, Option<Vec<String>>))
        requires
            data matches Some(d) ==> d.well_formed(),
        ensures
            match data {
                Some(data) => if data.libraries.len() > 0 {
                    &&& applied(self, data, r.0)
                    &&& r.1 matches Some(ids) && (forall|id: Seq<char>| #[trigger]
                        listed(ids@, id) == on_a_shelf(data, id)) && ascending(ids@)
                } else {
                    r.0 == self && r.1 is None
                },
                None => r.0 == self && r.1 is None,
            },
            self.consistent() ==> r.0.consistent(),
    {
        match data {
            Some(data) => {
                if data.libraries.len() > 0 {
                    let ids = cover_ids(&data);
                    (self.apply(data), Some(ids))
                } else {
                    (self, None)
                }
            },
            None => (self, None),
        }
    }

    /// The cycle resolves: `has_data` says whether there is anything to show the
    /// outcome over.
    pub fn resolve(self, outcome: &SyncOutcome, has_data: bool) -> (r: HomeScreen)
        ensures
            resolved(self, *outcome, has_data, r),
            self.consistent() ==> r.consistent(),
    {
        let mut banner = self.banner;
        if has_data {
            banner.report(outcome);
            HomeScreen { empty_state: self.empty_state.dismiss(), banner, ..self }
        } else {
            banner.conceal();
            let empty_state = match outcome {
                SyncOutcome::Synced => self.empty_state.show_empty(),
                SyncOutcome::Unauthorized(error) => self.empty_state.show_auth_error(error.as_str()),
                SyncOutcome::Failed(error) => self.empty_state.show_error(error.as_str()),
            };
            HomeScreen { empty_state, banner, scroller_visible: false, ..self }
        }
    }

    /// The cycle ends: it resolves and, if it was a manual one, releases the guard
    /// and has something to announce.
    fn cycle_ended(self, manual: bool, outcome: &SyncOutcome, has_data: bool) -> (r: (HomeScreen, CycleAction))
        ensures
            ended(self, manual, *outcome, has_data, r.0, r.1),
            self.consistent() ==> r.0.consistent(),
    {
        let shown = self.resolve(outcome, has_data);
        let mut guard = shown.manual;
        let toast = guard.end(manual, outcome);
        (HomeScreen { manual: guard, ..shown }, CycleAction::End(toast))
    }

    /// A cycle hears something: how the screen and the cycle go on, and what is to
    /// be done next.
    pub fn cycle_step(self, cycle: Cycle, event: CycleEvent<HomeData>) -> (r: (HomeScreen, Cycle, CycleAction))
        requires
            event matches CycleEvent::Read(Some(d)) ==> d.well_formed(),
        ensures
            cycle_stepped(self, cycle, event, r.0, r.1, r.2),
            self.consistent() ==> r.0.consistent(),
    {
        let manual: bool = cycle.manual;
        match (cycle.stage, event) {
            (Stage::Reading, CycleEvent::Read(data)) => {
                (self.loaded(data), Cycle { manual, stage: Stage::Syncing }, CycleAction::Sync)
            },
            (Stage::Syncing, CycleEvent::Synced(outcome)) => {
                (self, Cycle { manual, stage: Stage::Rereading(outcome) }, CycleAction::Read)
            },
            (Stage::Rereading(outcome), CycleEvent::Read(data)) => {
                let content: bool = match &data {
                    Some(data) => data.libraries.len() > 0,
                    None => self.scroller_visible,
                };
                let (shown, ids) = self.synced(data);
                match ids {
                    Some(ids) => (shown, Cycle { manual, stage: Stage::Fetching(outcome) }, CycleAction::Fetch(ids)),
                    None => {
                        let (told, end) = shown.cycle_ended(manual, &outcome, content);
                        (told, Cycle { manual, stage: Stage::Ended }, end)
                    },
                }
            },
            (Stage::Fetching(outcome), CycleEvent::Fetched) => {
                (self, Cycle { manual, stage: Stage::Covering(outcome) }, CycleAction::Read)
            },
            (Stage::Covering(outcome), CycleEvent::Read(data)) => {
                let shown = self.loaded(data);
                let (told, end) = shown.cycle_ended(manual, &outcome, true);
                (told, Cycle { manual, stage: Stage::Ended }, end)
            },
            (stage, _) => (self, Cycle { manual, stage }, CycleAction::Nothing),
        }
    }

    /// "Try again", in the view that stands in: back to the spinner before a
    /// further cycle.
    pub fn retry_pressed(self) -> (r: HomeScreen)
        ensures
            r == (HomeScreen { empty_state: r.empty_state, banner: r.banner, ..self }),
            r.empty_state@ == self.empty_state@.syncing(),
            r.banner@ == (BannerView { revealed: false, ..self.banner@ }),
            self.consistent() && self.empty_state.visible ==> r.consistent(),
    {
        let mut banner = self.banner;
        banner.conceal();
        HomeScreen { empty_state: self.empty_state.show_syncing(), banner, ..self }
    }

    /// Offline mode changes, from here or from another screen, or as it was
    /// stored. The shelves follow when what is downloaded has been looked up.
    pub fn offline_changed(self, active: bool) -> (r: HomeScreen)
        ensures
            r == (HomeScreen { offline: active, offline_banner: active, ..self }),
            self.consistent() ==> r.consistent(),
    {
        HomeScreen { offline: active, offline_banner: active, ..self }
    }

    /// What is downloaded has been looked up again; `None` where that failed.
    /// What was last shown is shown again.
    pub fn downloaded_refetched(self, downloaded: Option<Vec<String>>) -> (r: HomeScreen)
        requires
            self.consistent(),
        ensures
            match self.last_data {
                Some(data) => applied(
                    self,
                    match downloaded {
                        Some(ids) => HomeData { downloaded: ids, ..data },
                        None => data,
                    },
                    r,
                ),
                None => r == self,
            },
            r.consistent(),
    {
        match self.last_data {
            Some(data) => {
                let fresh = match downloaded {
                    Some(ids) => HomeData { downloaded: ids, ..data },
                    None => data,
                };
                HomeScreen { last_data: None, ..self }.apply(fresh)
            },
            None => self,
        }
    }
}

/// Only a dead session offers to log in again, and it always does: in the
/// banner over content, in the view that stands in without.
pub proof fn law_login_again(before: HomeScreen, outcome: SyncOutcome, has_data: bool, after: HomeScreen)
    requires
        resolved(before, outcome, has_data, after),
    ensures
        (after.banner@.revealed && after.banner@.action is Some) || (after.empty_state@.visible
            && after.empty_state@.login_again) <==> outcome is Unauthorized,
{
}

/// After a cycle either the banner shows, or the view that stands in, or,
/// after a success with content, neither.
pub proof fn law_outcomes_exclusive(before: HomeScreen, outcome: SyncOutcome, has_data: bool, after: HomeScreen)
    requires
        resolved(before, outcome, has_data, after),
    ensures
        after.empty_state@.visible == !has_data,
        after.banner@.revealed == (has_data && !(outcome is Synced)),
{
}

/// A failure can always be retried without content.
pub proof fn law_retry_offered(before: HomeScreen, outcome: SyncOutcome, after: HomeScreen)
    requires
        resolved(before, outcome, false, after),
    ensures
        after.empty_state@.buttons && after.empty_state@.retry,
        !after.empty_state@.spinning,
{
}

/// Offline, every card is of something downloaded; otherwise everything has its card.
pub proof fn law_offline_cards(data: HomeData, offline: bool, n: nat)
    ensures
        offline ==> forall|i: int|
            0 <= i < continue_cards(data, offline, n).len() ==> (#[trigger] continue_cards(data, offline, n)[i]).downloaded,
        offline ==> forall|i: int|
            0 <= i < recent_cards(data, offline, n).len() ==> (#[trigger] recent_cards(data, offline, n)[i]).downloaded,
        !offline ==> continue_cards(data, offline, n).len() == n && recent_cards(data, offline, n).len() == n,
    decreases n,
{
    if n > 0 {
        let m = (n - 1) as nat;
        law_offline_cards(data, offline, m);
        let (a, b) = (continue_cards(data, offline, n), recent_cards(data, offline, n));
        let (c, d) = (continue_cards(data, offline, m), recent_cards(data, offline, m));
        if offline {
            assert forall|i: int| 0 <= i < a.len() implies (#[trigger] a[i]).downloaded by {
                if i < c.len() {
                    assert(a[i] == c[i]);
                }
            }
            assert forall|i: int| 0 <= i < b.len() implies (#[trigger] b[i]).downloaded by {
                if i < d.len() {
                    assert(b[i] == d[i]);
                }
            }
        }
    }
}

/// The shelf of some rows followed by others is the shelf of the former followed by
/// that of the latter.
pub proof fn law_shelf_adds_up(a: Seq<(Progress, Option<Item>)>, b: Seq<(Progress, Option<Item>)>)
    ensures
        continue_shelf(a + b) == continue_shelf(a) + continue_shelf(b),
    decreases b.len(),
{
    if b.len() == 0 {
        assert(a + b =~= a);
        assert(continue_shelf(a) + continue_shelf(b) =~= continue_shelf(a));
    } else {
        law_shelf_adds_up(a, b.drop_last());
        assert((a + b).drop_last() =~= a + b.drop_last());
        assert((a + b).last() == b.last());
        assert(continue_shelf(a + b) =~= continue_shelf(a) + continue_shelf(b));
    }
}

/// A book that is not finished and was found is on the shelf; one that is finished,
/// or was not found, is not.
pub proof fn law_shelf_of_one(progress: Progress, item: Item)
    ensures
        !progress.is_finished ==> continue_shelf(seq![(progress, Some(item))]) == seq![(item, progress)],
        progress.is_finished ==> continue_shelf(seq![(progress, Some(item))]).len() == 0,
        continue_shelf(seq![(progress, None::<Item>)]).len() == 0,
{
    let (found, lost) = (seq![(progress, Some(item))], seq![(progress, None::<Item>)]);
    assert(found.drop_last() =~= Seq::empty() && lost.drop_last() =~= Seq::empty());
    assert(continue_shelf(found.drop_last()) =~= Seq::empty());
    assert(continue_shelf(lost.drop_last()) =~= Seq::empty());
    if !progress.is_finished {
        assert(continue_shelf(found) =~= seq![(item, progress)]);
    }
}

/// Online, every entry of a shelf has its card, in order: with the line below its
/// title, and with the mark of a download exactly where the item is among those
/// downloaded.
pub proof fn law_online_cards(data: HomeData, n: nat, i: int)
    requires
        0 <= i < n,
    ensures
        n <= data.continue_items.len() ==> ({
            let card = continue_cards(data, false, n)[i];
            let (item, progress) = data.continue_items[i];
            &&& continue_cards(data, false, n).len() == n
            &&& card.position == i
            &&& card.subtitle == continue_text(item, progress)
            &&& card.downloaded <==> exists|k: int|
                0 <= k < data.downloaded.len() && (#[trigger] data.downloaded[k])@ == item.id@
        }),
        n <= data.recent.len() ==> ({
            let card = recent_cards(data, false, n)[i];
            let item = data.items[data.recent[i] as int];
            &&& recent_cards(data, false, n).len() == n
            &&& card.position == data.recent[i]
            &&& card.subtitle == subtitle(item)
            &&& card.downloaded <==> exists|k: int|
                0 <= k < data.downloaded.len() && (#[trigger] data.downloaded[k])@ == item.id@
        }),
    decreases n,
{
    let m = (n - 1) as nat;
    law_offline_cards(data, false, m);
    if i < m {
        law_online_cards(data, m, i);
        assert(continue_cards(data, false, n)[i] == continue_cards(data, false, m)[i]);
        assert(recent_cards(data, false, n)[i] == recent_cards(data, false, m)[i]);
    }
}

/// Offline, a shelf has those of its cards that are of something downloaded, in
/// their order, and no others.
pub proof fn law_offline_filters(data: HomeData, n: nat)
    ensures
        continue_cards(data, true, n) == continue_cards(data, false, n).filter(|c: CardView| c.downloaded),
        recent_cards(data, true, n) == recent_cards(data, false, n).filter(|c: CardView| c.downloaded),
    decreases n,
{
    reveal(Seq::filter);
    if n > 0 {
        let m = (n - 1) as nat;
        law_offline_filters(data, m);
        assert(continue_cards(data, false, n).drop_last() =~= continue_cards(data, false, m));
        assert(recent_cards(data, false, n).drop_last() =~= recent_cards(data, false, m));
    }
}

/// Covers are fetched for what is on the shelves, and for nothing else.
pub proof fn law_covers(data: HomeData, i: int, id: Seq<char>)
    ensures
        0 <= i < data.recent.len() ==> on_a_shelf(data, data.items[data.recent[i] as int].id@),
        0 <= i < data.continue_items.len() ==> on_a_shelf(data, data.continue_items[i].0.id@),
        (forall|k: int| 0 <= k < data.recent.len() ==> data.items[#[trigger] data.recent[k] as int].id@ != id) && (forall|
            k: int,
        |
            0 <= k < data.continue_items.len() ==> (#[trigger] data.continue_items[k]).0.id@ != id) ==> !on_a_shelf(
            data,
            id,
        ),
{
}

/// What the view that stands in shows: a spinner while a sync runs, else an icon; the
/// text of an error where there is one, and what can be done about it once the sync
/// is over. Out of the way it only stops spinning.
pub proof fn law_empty_states(view: EmptyView, error: Seq<char>)
    ensures
        forall|v: EmptyView|
            v == EmptyView::fresh() || v == view.syncing() ==> (#[trigger] v.visible) && v.spinner && v.spinning
                && !v.icon && !v.buttons && !v.details,
        forall|v: EmptyView|
            v == EmptyView::failed(error) || v == EmptyView::unauthorized(error) || v == view.nothing() ==> (
            #[trigger] v.visible) && !v.spinner && !v.spinning && v.icon && v.buttons && v.retry,
        forall|v: EmptyView|
            v == EmptyView::failed(error) || v == EmptyView::unauthorized(error) ==> (#[trigger] v.details_text) == error
                && v.details == (error != Seq::<char>::empty()),
        EmptyView::unauthorized(error).login_again,
        !EmptyView::failed(error).login_again && !view.nothing().login_again,
        !view.nothing().details,
        !view.hidden().visible && !view.hidden().spinning,
        view.hidden() == (EmptyView { visible: false, spinning: false, ..view }),
        view.hidden().syncing().hidden() == view.syncing().hidden(),
{
    assert(error.len() == 0 ==> error =~= Seq::<char>::empty());
}

/// What is loaded shows: the shelves where there is any library, with the row of
/// what to continue only where it has a card; nothing else of the screen changes.
pub proof fn law_loaded_shows(before: HomeScreen, data: HomeData, after: HomeScreen)
    requires
        applied(before, data, after),
    ensures
        after.scroller_visible <==> data.libraries.len() > 0,
        data.libraries.len() > 0 ==> !after.empty_state@.visible,
        data.libraries.len() == 0 ==> after.empty_state@ == before.empty_state@,
        after.last_data == Some(data),
        !before.offline ==> after.continue_row.len() == data.continue_items.len() && after.recent_row.len()
            == data.recent.len(),
        after.continue_visible <==> after.continue_row.len() > 0,
        after.banner == before.banner && after.manual == before.manual,
        after.offline == before.offline && after.offline_banner == before.offline_banner,
{
    law_offline_cards(data, before.offline, data.continue_items.len() as nat);
    law_offline_cards(data, before.offline, data.recent.len() as nat);
    assert(card_views(after.continue_row@).len() == after.continue_row.len());
    assert(card_views(after.recent_row@).len() == after.recent_row.len());
}

/// After the sync: libraries that were read show, and their covers are asked for
/// before the cycle ends. Otherwise it ends at once: over the shelves that are up
/// where reading failed, and with the view that stands in for them where there are
/// none or nothing is stored.
pub proof fn law_after_sync(
    before: HomeScreen,
    manual: bool,
    outcome: SyncOutcome,
    data: Option<HomeData>,
    after: HomeScreen,
    next: Cycle,
    action: CycleAction,
)
    requires
        cycle_stepped(
            before,
            Cycle { manual, stage: Stage::Rereading(outcome) },
            CycleEvent::Read(data),
            after,
            next,
            action,
        ),
    ensures
        next.manual == manual,
        data is Some && data->0.libraries.len() > 0 ==> {
            &&& next.stage == Stage::Fetching(outcome) && action is Fetch
            &&& after.scroller_visible && after.last_data == data
            &&& after.banner == before.banner && after.manual == before.manual
        },
        !(data is Some && data->0.libraries.len() > 0) ==> {
            &&& next.stage is Ended && action is End
            &&& after.last_data == before.last_data
            &&& after.empty_state@.visible == !(data is None && before.scroller_visible)
            &&& after.scroller_visible == (data is None && before.scroller_visible)
            &&& after.banner@.revealed == (after.scroller_visible && outcome !is Synced)
            &&& manual ==> !after.manual.in_flight
            &&& !manual ==> after.manual == before.manual
        },
{
}

/// At the end of a cycle that fetched covers the outcome shows over the shelves,
/// whatever was read last.
pub proof fn law_after_covers(
    before: HomeScreen,
    manual: bool,
    outcome: SyncOutcome,
    data: Option<HomeData>,
    after: HomeScreen,
    next: Cycle,
    action: CycleAction,
)
    requires
        cycle_stepped(
            before,
            Cycle { manual, stage: Stage::Covering(outcome) },
            CycleEvent::Read(data),
            after,
            next,
            action,
        ),
    ensures
        next.stage is Ended && action is End,
        !after.empty_state@.visible,
        after.banner@.revealed == (outcome !is Synced),
        data is Some && data->0.libraries.len() > 0 ==> after.last_data == data && after.scroller_visible,
        !(data is Some && data->0.libraries.len() > 0) ==> after.last_data == before.last_data && after.scroller_visible
            == before.scroller_visible,
{
}

/// Before its start nothing of an item has been listened to, and without an end all
/// of it; where the position is no number, neither is the percentage.
pub proof fn law_percent_ends(item: Item, progress: Progress)
    requires
        whole(0).less(item.duration@),
        !item.duration@.is_infinite(),
    ensures
        ({
            let (p, number) = (progress.current_time@, percent_in(item, continue_text(item, progress)));
            &&& !p.nan && p.value() < 0 ==> number == "0"@ || number == "-0"@
            &&& p.is_infinite() && !p.neg ==> number_in(number) == 100
            &&& p.nan ==> number == "NaN"@
        }),
{
    lemma_quanta();
    let (p, d, o) = (progress.current_time@, item.duration@, one());
    lemma_pow2_pos(53);
    lemma_pow2_pos(2098);
    lemma_whole_value(0);
    lemma_whole_value(100);
    assert(0 * o == 0);
    let x = percent_listened(item, progress);
    if !p.nan && p.value() < 0 {
        lemma_percent_before(p, d);
        crate::rounding::lemma_half_even_whole(0, o);
        reveal_strlit("");
        reveal_strlit("-");
        reveal_strlit("0");
        reveal_strlit("-0");
        assert(crate::text::digits(0) =~= seq!['0']);
        assert(percent_in(item, continue_text(item, progress)) =~= units_text(x));
        assert(units_text(x) =~= if x.neg {
            "-0"@
        } else {
            "0"@
        });
    }
    if p.is_infinite() && !p.neg {
        assert(x == whole(100));
        lemma_percent_text(item, progress);
        crate::rounding::lemma_half_even_whole(100, o);
    }
    if p.nan {
        assert(percent_in(item, continue_text(item, progress)) =~= units_text(x));
    }
}

/// Before its start the share of an item is held to nothing, up to its sign.
proof fn lemma_percent_before(p: Num, d: Num)
    requires
        !p.nan && p.value() < 0,
        whole(0).less(d),
        !d.is_infinite(),
    ensures
        clamped(p.over(d).times(whole(100)), whole(0), whole(100)).mag == 0,
{
}

} // verus!
