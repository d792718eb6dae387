//! The Library tab: every item of every library, searchable, filtered, ordered
//! and grouped.
use crate::browse::{
    arranged, ascending, cut_sections, genre_chips, has_genre, in_category, law_list_determined, lowered_texts,
    section_views, sections_of, shows, visible_order, CategoryFilter, Grouping, LibraryData, LibraryView, Section,
    SortBy, SortKey,
};
use crate::models::{is_listed, item_subtitle, listed, subtitle, Item};
use crate::sync::{
    announcement, banner_after, cycle_at, lemma_cycle_at, lemma_ends_once, no_banner, stage_after, staged,
    synced_so, text_view, Banner, Cycle, CycleAction, CycleEvent, CycleStep, ManualSync, Stage, SyncOutcome,
};
use vstd::prelude::*;

verus! {

/// Whether the items stand as rows or as tiles.
#[derive(Clone, Copy, Debug, PartialEq, Eq, Structural)]
pub enum LibraryViewMode {
    List,
    Grid,
}

/// The choices that outlive the session.
#[derive(Clone, Copy, Debug, PartialEq, Eq, Structural)]
pub struct LibraryViewOptions {
    pub downloaded_only: bool,
    pub in_progress_only: bool,
    pub hide_finished: bool,
    pub grouping: Grouping,
    pub sort_by: SortBy,
}

/// The category chips.
#[derive(Clone, Copy, Debug, PartialEq, Eq, Structural)]
pub enum Chip {
    All,
    Author,
    Series,
    Genre,
}

/// What the page in place of an empty list says.
#[derive(Clone, Copy, Debug, PartialEq, Eq, Structural)]
pub enum StatusTitle {
    NoItemsYet,
    NoDownloadedItems,
}

/// What the rows of the view-options sheet display.
#[derive(Clone, Copy, Debug, PartialEq, Eq, Structural)]
pub struct Sheet {
    pub downloaded_only: bool,
    pub in_progress_only: bool,
    pub hide_finished: bool,
    pub grouping: u32,
    pub sort_by: u32,
}

/// The state of the tab.
#[derive(Clone, Debug)]
pub struct LibraryScreen {
    pub view: LibraryView,
    pub view_mode: LibraryViewMode,
    pub data: LibraryData,
    /// The list as it was last rendered.
    pub sections: Vec<Section>,
    pub genre_chips: Vec<String>,
    pub chip: Chip,
    /// Whether the row of genres is revealed.
    pub genre_row: bool,
    pub status_title: StatusTitle,
    pub status_visible: bool,
    pub scroller_visible: bool,
    pub grid_visible: bool,
    pub list_visible: bool,
    pub progress_banner: bool,
    pub offline_banner: bool,
    /// Whether the view-options button shows that a filter is active.
    pub funnel: bool,
    pub busy: bool,
    /// What is left for the next idle moment.
    pub render_due: bool,
    pub swap_due: Option<LibraryViewMode>,
    pub sheet: Sheet,
    pub banner: Banner,
    pub manual: ManualSync,
}

/// How an item is shown: as a tile or as a row.
#[derive(Clone, Debug)]
pub struct Tile {
    pub title: String,
    pub subtitle: String,
    /// Whether the mark of a downloaded item shows, which only tiles have.
    pub downloaded: bool,
}

/// Whether any item is shown.
pub open spec fn anything_shown(data: LibraryData, view: LibraryView) -> bool {
    exists|x: int| 0 <= x < data.items.len() && shows(data, view, #[trigger] data.items[x])
}

/// Whether the sections are those of what is loaded and chosen.
pub open spec fn rendered(data: LibraryData, view: LibraryView, sections: Seq<Section>) -> bool {
    exists|list: Seq<usize>|
        #[trigger] arranged(data, view, lowered_texts(data, view), list) && section_views(sections) == sections_of(
            data,
            view.grouping,
            list,
        )
}

/// Whether a filter is active.
pub open spec fn filter_active(view: LibraryView) -> bool {
    view.in_progress_only || view.hide_finished || view.offline
}

/// The row of the grouping in its list of choices.
pub open spec fn grouping_row(grouping: Grouping) -> u32 {
    match grouping {
        Grouping::Ungrouped => 0,
        Grouping::BySeries => 1,
        Grouping::ByAuthor => 2,
    }
}

/// The grouping of a row; any other row is that of no grouping.
pub open spec fn grouping_at(row: u32) -> Grouping {
    if row == 1 {
        Grouping::BySeries
    } else if row == 2 {
        Grouping::ByAuthor
    } else {
        Grouping::Ungrouped
    }
}

/// The row of an order in its list of choices.
pub open spec fn sort_row(sort_by: SortBy) -> u32 {
    match sort_by {
        SortBy::DateOfCreation => 0,
        SortBy::Title => 1,
        SortBy::Author => 2,
        SortBy::Duration => 3,
        SortBy::LastListened => 4,
    }
}

/// The order of a row; any other row is that of the date.
pub open spec fn sort_at(row: u32) -> SortBy {
    if row == 1 {
        SortBy::Title
    } else if row == 2 {
        SortBy::Author
    } else if row == 3 {
        SortBy::Duration
    } else if row == 4 {
        SortBy::LastListened
    } else {
        SortBy::DateOfCreation
    }
}

/// A choice and its row correspond.
pub proof fn law_choice_rows(grouping: Grouping, sort_by: SortBy)
    ensures
        grouping_at(grouping_row(grouping)) == grouping,
        sort_at(sort_row(sort_by)) == sort_by,
{
}

fn grouping_in_row(row: u32) -> (r: Grouping)
    ensures
        r == grouping_at(row),
{
    match row {
        1 => Grouping::BySeries,
        2 => Grouping::ByAuthor,
        _ => Grouping::Ungrouped,
    }
}

fn chip_for(grouping: Grouping) -> (r: Chip)
    ensures
        r == LibraryScreen::chip_of(grouping),
{
    match grouping {
        Grouping::Ungrouped => Chip::All,
        Grouping::BySeries => Chip::Series,
        Grouping::ByAuthor => Chip::Author,
    }
}

fn row_of_grouping(grouping: Grouping) -> (r: u32)
    ensures
        r == grouping_row(grouping),
{
    match grouping {
        Grouping::Ungrouped => 0,
        Grouping::BySeries => 1,
        Grouping::ByAuthor => 2,
    }
}

fn row_of_sort(sort_by: SortBy) -> (r: u32)
    ensures
        r == sort_row(sort_by),
{
    match sort_by {
        SortBy::DateOfCreation => 0,
        SortBy::Title => 1,
        SortBy::Author => 2,
        SortBy::Duration => 3,
        SortBy::LastListened => 4,
    }
}

impl LibraryScreen {
    /// The choices as they are stored.
    pub open spec fn options(self) -> LibraryViewOptions {
        LibraryViewOptions {
            downloaded_only: self.view.offline,
            in_progress_only: self.view.in_progress_only,
            hide_finished: self.view.hide_finished,
            grouping: self.view.grouping,
            sort_by: self.view.sort.stored(),
        }
    }

    /// What every surface says of the state agrees with it.
    pub open spec fn consistent(self) -> bool {
        &&& self.funnel == filter_active(self.view)
        &&& self.progress_banner == self.view.in_progress_only
        &&& self.sheet.in_progress_only == self.view.in_progress_only
        &&& self.offline_banner == self.view.offline
        &&& self.sheet.downloaded_only == self.view.offline
        &&& self.grid_visible != self.list_visible
        &&& self.genre_row == (self.chip == Chip::Genre)
        &&& self.render_due ==> self.busy
        &&& self.swap_due is Some ==> self.render_due
        &&& self.swap_due is None ==> self.list_visible == (self.view_mode == LibraryViewMode::List)
        &&& self.swap_due matches Some(mode) ==> mode == self.view_mode
        &&& self.status_title == StatusTitle::NoDownloadedItems ==> self.view.offline
    }

    /// Shows that it is busy and leaves the rendering to the next idle moment.
    pub open spec fn render_requested(self) -> LibraryScreen {
        LibraryScreen { busy: true, render_due: true, ..self }
    }

    /// The choices as they are stored.
    pub fn view_options(&self) -> (r: LibraryViewOptions)
        ensures
            r == self.options(),
    {
        LibraryViewOptions {
            downloaded_only: self.view.offline,
            in_progress_only: self.view.in_progress_only,
            hide_finished: self.view.hide_finished,
            grouping: self.view.grouping,
            sort_by: self.view.sort.to_sort_by(),
        }
    }

    fn request_render(self) -> (r: LibraryScreen)
        ensures
            r == self.render_requested(),
    {
        LibraryScreen { busy: true, render_due: true, ..self }
    }

    /// Renders the list. Offline, the page for an empty list stands in whenever
    /// nothing is shown; otherwise only the absence of any item brings it up.
    pub fn render(self) -> (r: LibraryScreen)
        ensures
            rendered(self.data, self.view, r.sections@),
            r == (LibraryScreen { sections: r.sections, ..settled(self) }),
            self.consistent() ==> r.consistent(),
    {
        let list = visible_order(&self.data, &self.view);
        let any: bool = list.len() > 0;
        proof {
            if any {
                assert(shows(self.data, self.view, self.data.items[list[0] as int]));
            }
            if anything_shown(self.data, self.view) {
                let x = choose|x: int|
                    0 <= x < self.data.items.len() && shows(self.data, self.view, #[trigger] self.data.items[x]);
                let i = choose|i: int| 0 <= i < list.len() && list[i] == x;
            }
        }
        let sections = cut_sections(&self.data, self.view.grouping, &list);
        assert(rendered(self.data, self.view, sections@));
        if self.view.offline {
            let status_title = if any {
                StatusTitle::NoItemsYet
            } else {
                StatusTitle::NoDownloadedItems
            };
            LibraryScreen { sections, status_title, status_visible: !any, scroller_visible: any, ..self }
        } else if self.data.items.len() > 0 {
            LibraryScreen {
                sections,
                status_title: StatusTitle::NoItemsYet,
                status_visible: false,
                scroller_visible: true,
                ..self
            }
        } else {
            LibraryScreen { sections, status_title: StatusTitle::NoItemsYet, ..self }
        }
    }
}

/// The page and the list after rendering what is loaded and chosen.
pub open spec fn settled(screen: LibraryScreen) -> LibraryScreen {
    let empty = screen.view.offline && !anything_shown(screen.data, screen.view);
    if screen.view.offline || screen.data.items.len() > 0 {
        LibraryScreen {
            status_title: if empty {
                StatusTitle::NoDownloadedItems
            } else {
                StatusTitle::NoItemsYet
            },
            status_visible: empty,
            scroller_visible: !empty,
            ..screen
        }
    } else {
        LibraryScreen { status_title: StatusTitle::NoItemsYet, ..screen }
    }
}

/// Whether the genre chips are the genres of the items, each once, in order.
pub open spec fn chips_of(items: Seq<Item>, chips: Seq<String>) -> bool {
    &&& forall|g: Seq<char>| #[trigger] listed(chips, g) == has_genre(items, g)
    &&& ascending(chips)
}

/// Whether `after` is `before` showing what has been loaded.
pub open spec fn applied(before: LibraryScreen, data: LibraryData, after: LibraryScreen) -> bool {
    let taken = LibraryScreen {
        data,
        genre_chips: after.genre_chips,
        status_visible: data.items.len() == 0,
        scroller_visible: data.items.len() > 0,
        ..before
    };
    &&& after == (LibraryScreen { sections: after.sections, ..settled(taken) })
    &&& rendered(data, before.view, after.sections@)
    &&& chips_of(data.items@, after.genre_chips@)
}

/// Whether `after` is `before` with the stored choices, rendered. Where the
/// sheet's switch of the "in progress only" filter moves, it asks for a further
/// rendering.
pub open spec fn options_taken(before: LibraryScreen, options: LibraryViewOptions, after: LibraryScreen) -> bool {
    let view = LibraryView {
        sort: SortKey::of(options.sort_by),
        in_progress_only: options.in_progress_only,
        hide_finished: options.hide_finished,
        grouping: options.grouping,
        ..before.view
    };
    let chosen = LibraryScreen {
        view,
        progress_banner: options.in_progress_only,
        funnel: filter_active(view),
        sheet: Sheet { in_progress_only: options.in_progress_only, ..before.sheet },
        ..before
    };
    let asked = if before.sheet.in_progress_only != options.in_progress_only {
        chosen.render_requested()
    } else {
        chosen
    };
    &&& after == (LibraryScreen { sections: after.sections, ..settled(asked) })
    &&& rendered(before.data, view, after.sections@)
}

/// Whether `after` is `before` with offline mode on or off, rendered.
pub open spec fn offline_taken(before: LibraryScreen, active: bool, after: LibraryScreen) -> bool {
    let view = LibraryView { offline: active, ..before.view };
    let chosen = LibraryScreen {
        view,
        offline_banner: active,
        funnel: filter_active(view),
        sheet: Sheet { downloaded_only: active, ..before.sheet },
        ..before
    };
    &&& after == (LibraryScreen { sections: after.sections, ..settled(chosen) })
    &&& rendered(before.data, view, after.sections@)
}

/// Two renderings of the same data and choices show the same sections.
pub proof fn law_rendering_determined(data: LibraryData, view: LibraryView, a: Seq<Section>, b: Seq<Section>)
    requires
        rendered(data, view, a),
        rendered(data, view, b),
    ensures
        section_views(a) == section_views(b),
{
    let low = lowered_texts(data, view);
    let x = choose|list: Seq<usize>|
        #[trigger] arranged(data, view, low, list) && section_views(a) == sections_of(data, view.grouping, list);
    let y = choose|list: Seq<usize>|
        #[trigger] arranged(data, view, low, list) && section_views(b) == sections_of(data, view.grouping, list);
    law_list_determined(data, view, low, x, y);
}

/// Only offline does the page for an empty list speak of downloads: with offline
/// mode off, whatever was shown before, it says that there are no items yet.
pub proof fn law_offline_off_title(on: LibraryScreen, off: LibraryScreen)
    requires
        offline_taken(on, false, off),
    ensures
        off.status_title == StatusTitle::NoItemsYet,
{
}

/// Offline mode on and off again brings the full list back, whatever the
/// downloaded items were.
pub proof fn law_offline_off_restores(start: LibraryScreen, on: LibraryScreen, off: LibraryScreen)
    requires
        !start.view.offline,
        start.data.items.len() > 0,
        rendered(start.data, start.view, start.sections@),
        offline_taken(start, true, on),
        offline_taken(on, false, off),
    ensures
        off.view == start.view,
        off.data == start.data,
        section_views(off.sections@) == section_views(start.sections@),
        off.scroller_visible,
        !off.status_visible,
        !off.offline_banner,
{
    law_rendering_determined(start.data, start.view, off.sections@, start.sections@);
}

/// Offline, the page for an empty list is up exactly when nothing downloaded is shown.
pub proof fn law_offline_page(start: LibraryScreen, on: LibraryScreen)
    requires
        offline_taken(start, true, on),
    ensures
        on.status_visible == !anything_shown(on.data, on.view),
        on.scroller_visible == !on.status_visible,
        on.status_title == if on.status_visible {
            StatusTitle::NoDownloadedItems
        } else {
            StatusTitle::NoItemsYet
        },
{
}

/// Stored choices come back as they were: a screen that takes the options of
/// another has its order, its filters and its grouping.
pub proof fn law_options_return(stored: LibraryScreen, fresh: LibraryScreen, taken: LibraryScreen)
    requires
        options_taken(fresh, stored.options(), taken),
    ensures
        taken.view.sort == stored.view.sort,
        taken.view.in_progress_only == stored.view.in_progress_only,
        taken.view.hide_finished == stored.view.hide_finished,
        taken.view.grouping == stored.view.grouping,
        taken.options() == (LibraryViewOptions { downloaded_only: fresh.view.offline, ..stored.options() }),
{
}

impl LibraryScreen {
    /// What the "in progress only" filter sets, everywhere it shows.
    pub open spec fn in_progress_set(self, active: bool) -> LibraryScreen {
        let view = LibraryView { in_progress_only: active, ..self.view };
        LibraryScreen {
            view,
            progress_banner: active,
            funnel: filter_active(view),
            sheet: Sheet { in_progress_only: active, ..self.sheet },
            ..self
        }.render_requested()
    }

    /// What picking a category chip that was not active sets.
    pub open spec fn chip_set(self, chip: Chip) -> LibraryScreen {
        match chip {
            Chip::Genre => LibraryScreen { chip, genre_row: true, ..self },
            _ => LibraryScreen {
                chip,
                genre_row: false,
                view: LibraryView {
                    category: match chip {
                        Chip::Author => CategoryFilter::Author,
                        Chip::Series => CategoryFilter::Series,
                        _ => CategoryFilter::All,
                    },
                    grouping: match chip {
                        Chip::Author => Grouping::ByAuthor,
                        Chip::Series => Grouping::BySeries,
                        _ => Grouping::Ungrouped,
                    },
                    ..self.view
                },
                ..self
            }.render_requested(),
        }
    }

    /// The chip that goes with a grouping.
    pub open spec fn chip_of(grouping: Grouping) -> Chip {
        match grouping {
            Grouping::Ungrouped => Chip::All,
            Grouping::BySeries => Chip::Series,
            Grouping::ByAuthor => Chip::Author,
        }
    }

    /// What choosing a grouping in the sheet sets: the chip that goes with it,
    /// and the grouping itself.
    pub open spec fn grouping_set(self, row: u32) -> LibraryScreen {
        let grouping = grouping_at(row);
        let chip = LibraryScreen::chip_of(grouping);
        let picked = if self.chip == chip {
            self
        } else {
            self.chip_set(chip)
        };
        LibraryScreen {
            view: LibraryView { grouping, ..picked.view },
            sheet: Sheet { grouping: row, ..picked.sheet },
            ..picked
        }.render_requested()
    }

    /// What changing between rows and tiles sets.
    pub open spec fn mode_set(self, mode: LibraryViewMode) -> LibraryScreen {
        LibraryScreen { view_mode: mode, swap_due: Some(mode), ..self }.render_requested()
    }

    /// Sets the "in progress only" filter for the session.
    pub fn set_in_progress_only(self, active: bool) -> (r: LibraryScreen)
        ensures
            r == self.in_progress_set(active),
            self.consistent() ==> r.consistent(),
    {
        let view = LibraryView { in_progress_only: active, ..self.view };
        let funnel: bool = view.in_progress_only || view.hide_finished || view.offline;
        LibraryScreen {
            view,
            progress_banner: active,
            funnel,
            sheet: Sheet { in_progress_only: active, ..self.sheet },
            ..self
        }.request_render()
    }

    /// The sheet's switch of the "in progress only" filter. A change is to be stored.
    pub fn in_progress_switched(self, active: bool) -> (r: (LibraryScreen, Option<LibraryViewOptions>))
        ensures
            r.0 == self.in_progress_set(active),
            self.consistent() ==> r.0.consistent(),
            r.1 == if self.view.in_progress_only != active {
                Some(r.0.options())
            } else {
                None
            },
    {
        let changed: bool = self.view.in_progress_only != active;
        let next = self.set_in_progress_only(active);
        if changed {
            let store = next.view_options();
            (next, Some(store))
        } else {
            (next, None)
        }
    }

    /// Comes here from elsewhere with an order and a filter, for the session.
    pub fn apply_view(self, key: SortKey, in_progress_only: bool) -> (r: LibraryScreen)
        ensures
            r == (LibraryScreen { view: LibraryView { sort: key, ..self.view }, ..self }).in_progress_set(
                in_progress_only,
            ),
            self.consistent() ==> r.consistent(),
    {
        let view = LibraryView { sort: key, ..self.view };
        LibraryScreen { view, ..self }.set_in_progress_only(in_progress_only)
    }

    /// Comes here from elsewhere to show one series, for the session.
    pub fn apply_series_filter(self, series_name: &str) -> (r: LibraryScreen)
        ensures
            r == (LibraryScreen {
                view: LibraryView { category: r.view.category, grouping: Grouping::Ungrouped, ..self.view },
                ..self
            }).render_requested(),
            r.view.category matches CategoryFilter::OneSeries(name) && name@ == series_name@,
            self.consistent() ==> r.consistent(),
    {
        let category = CategoryFilter::OneSeries(String::from_str(series_name));
        let view = LibraryView { category, grouping: Grouping::Ungrouped, ..self.view };
        LibraryScreen { view, ..self }.request_render()
    }

    /// The sheet's switch of the "hide finished" filter, to be stored.
    pub fn hide_finished_switched(self, active: bool) -> (r: (LibraryScreen, LibraryViewOptions))
        ensures
            ({
                let view = LibraryView { hide_finished: active, ..self.view };
                r.0 == (LibraryScreen {
                    view,
                    funnel: filter_active(view),
                    sheet: Sheet { hide_finished: active, ..self.sheet },
                    ..self
                }).render_requested()
            }),
            self.consistent() ==> r.0.consistent(),
            r.1 == r.0.options(),
    {
        let view = LibraryView { hide_finished: active, ..self.view };
        let funnel: bool = view.in_progress_only || view.hide_finished || view.offline;
        let sheet = Sheet { hide_finished: active, ..self.sheet };
        let next = LibraryScreen { view, funnel, sheet, ..self }.request_render();
        let store = next.view_options();
        (next, store)
    }

    /// A category chip. Picking one that is active changes nothing; the genre
    /// chip reveals the genres and stores nothing; the others are stored.
    pub fn chip_picked(self, chip: Chip) -> (r: (LibraryScreen, Option<LibraryViewOptions>))
        ensures
            r.0 == if self.chip == chip {
                self
            } else {
                self.chip_set(chip)
            },
            self.consistent() ==> r.0.consistent(),
            r.1 == if self.chip == chip || chip == Chip::Genre {
                None
            } else {
                Some(r.0.options())
            },
    {
        if self.chip == chip {
            return (self, None);
        }
        let (category, grouping) = match chip {
            Chip::Genre => {
                return (LibraryScreen { chip, genre_row: true, ..self }, None);
            },
            Chip::All => (CategoryFilter::All, Grouping::Ungrouped),
            Chip::Author => (CategoryFilter::Author, Grouping::ByAuthor),
            Chip::Series => (CategoryFilter::Series, Grouping::BySeries),
        };
        let view = LibraryView { category, grouping, ..self.view };
        let next = LibraryScreen { chip, genre_row: false, view, ..self }.request_render();
        let store = next.view_options();
        (next, Some(store))
    }

    /// One of the revealed genres, for the session.
    pub fn genre_picked(self, index: usize) -> (r: LibraryScreen)
        requires
            index < self.genre_chips.len(),
        ensures
            r == (LibraryScreen {
                view: LibraryView {
                    category: CategoryFilter::Genre(self.genre_chips[index as int]),
                    ..self.view
                },
                ..self
            }).render_requested(),
            self.consistent() ==> r.consistent(),
    {
        let category = CategoryFilter::Genre(self.genre_chips[index].clone());
        let view = LibraryView { category, ..self.view };
        LibraryScreen { view, ..self }.request_render()
    }

    /// The sheet's choice of a grouping, to be stored.
    pub fn grouping_picked(self, row: u32) -> (r: (LibraryScreen, LibraryViewOptions))
        ensures
            r.0 == self.grouping_set(row),
            self.consistent() ==> r.0.consistent(),
            r.1 == r.0.options(),
    {
        let grouping = grouping_in_row(row);
        let (picked, _) = self.chip_picked(chip_for(grouping));
        let next = picked.grouping_chosen(grouping, row);
        let store = next.view_options();
        (next, store)
    }

    fn grouping_chosen(self, grouping: Grouping, row: u32) -> (r: LibraryScreen)
        ensures
            r == (LibraryScreen {
                view: LibraryView { grouping, ..self.view },
                sheet: Sheet { grouping: row, ..self.sheet },
                ..self
            }).render_requested(),
            self.consistent() ==> r.consistent(),
    {
        let view = LibraryView { grouping, ..self.view };
        let sheet = Sheet { grouping: row, ..self.sheet };
        LibraryScreen { view, sheet, ..self }.request_render()
    }

    /// The sheet's choice of an order, to be stored.
    pub fn sort_picked(self, row: u32) -> (r: (LibraryScreen, LibraryViewOptions))
        ensures
            r.0 == (LibraryScreen {
                view: LibraryView { sort: SortKey::of(sort_at(row)), ..self.view },
                sheet: Sheet { sort_by: row, ..self.sheet },
                ..self
            }).render_requested(),
            self.consistent() ==> r.0.consistent(),
            r.1 == r.0.options(),
    {
        let sort_by = match row {
            1 => SortBy::Title,
            2 => SortBy::Author,
            3 => SortBy::Duration,
            4 => SortBy::LastListened,
            _ => SortBy::DateOfCreation,
        };
        let view = LibraryView { sort: SortKey::from_sort_by(sort_by), ..self.view };
        let sheet = Sheet { sort_by: row, ..self.sheet };
        let next = LibraryScreen { view, sheet, ..self }.request_render();
        let store = next.view_options();
        (next, store)
    }

    /// The sheet opens: its rows display what is chosen. Nothing else changes.
    pub fn sheet_opened(self) -> (r: LibraryScreen)
        ensures
            r == (LibraryScreen {
                sheet: Sheet {
                    downloaded_only: self.view.offline,
                    in_progress_only: self.view.in_progress_only,
                    hide_finished: self.view.hide_finished,
                    grouping: grouping_row(self.view.grouping),
                    sort_by: sort_row(self.view.sort.stored()),
                },
                ..self
            }),
            self.consistent() ==> r.consistent(),
    {
        let sheet = Sheet {
            downloaded_only: self.view.offline,
            in_progress_only: self.view.in_progress_only,
            hide_finished: self.view.hide_finished,
            grouping: row_of_grouping(self.view.grouping),
            sort_by: row_of_sort(self.view.sort.to_sort_by()),
        };
        LibraryScreen { sheet, ..self }
    }

    /// The search text changes.
    pub fn search_typed(self, query: String) -> (r: LibraryScreen)
        ensures
            r == (LibraryScreen { view: LibraryView { query, ..self.view }, ..self }),
            self.consistent() ==> r.consistent(),
    {
        let view = LibraryView { query, ..self.view };
        LibraryScreen { view, ..self }
    }

    /// The search text has stayed the same for a while.
    pub fn search_settled(self) -> (r: LibraryScreen)
        ensures
            r == self.render_requested(),
            self.consistent() ==> r.consistent(),
    {
        self.request_render()
    }

    /// The header's toggle between rows and tiles; the mode to store.
    pub fn view_mode_toggled(self, list: bool) -> (r: (LibraryScreen, LibraryViewMode))
        ensures
            r.1 == if list {
                LibraryViewMode::List
            } else {
                LibraryViewMode::Grid
            },
            r.0 == self.mode_set(r.1),
            self.consistent() ==> r.0.consistent(),
    {
        let mode = if list {
            LibraryViewMode::List
        } else {
            LibraryViewMode::Grid
        };
        (self.apply_view_mode(mode), mode)
    }

    /// Changes between rows and tiles.
    pub fn apply_view_mode(self, mode: LibraryViewMode) -> (r: LibraryScreen)
        ensures
            r == self.mode_set(mode),
            self.consistent() ==> r.consistent(),
    {
        LibraryScreen { view_mode: mode, swap_due: Some(mode), ..self }.request_render()
    }

    /// Does what was left for this idle moment.
    pub fn idle(self) -> (r: LibraryScreen)
        ensures
            ({
                let swapped = match self.swap_due {
                    Some(mode) => LibraryScreen {
                        grid_visible: mode == LibraryViewMode::Grid,
                        list_visible: mode == LibraryViewMode::List,
                        ..self
                    },
                    None => self,
                };
                let shown = if self.render_due {
                    settled(swapped)
                } else {
                    swapped
                };
                &&& r == (LibraryScreen {
                    sections: r.sections,
                    busy: false,
                    render_due: false,
                    swap_due: None,
                    ..shown
                })
                &&& if self.render_due {
                    rendered(self.data, self.view, r.sections@)
                } else {
                    r.sections == self.sections
                }
            }),
            self.consistent() ==> r.consistent(),
    {
        let swapped = match self.swap_due {
            Some(mode) => LibraryScreen {
                grid_visible: mode == LibraryViewMode::Grid,
                list_visible: mode == LibraryViewMode::List,
                ..self
            },
            None => self,
        };
        let shown = if swapped.render_due {
            swapped.render()
        } else {
            swapped
        };
        LibraryScreen { busy: false, render_due: false, swap_due: None, ..shown }
    }

    /// The stored choices arrive.
    pub fn options_loaded(self, options: LibraryViewOptions) -> (r: LibraryScreen)
        ensures
            options_taken(self, options, r),
            self.consistent() ==> r.consistent(),
    {
        let switched: bool = self.sheet.in_progress_only != options.in_progress_only;
        let view = LibraryView {
            sort: SortKey::from_sort_by(options.sort_by),
            in_progress_only: options.in_progress_only,
            hide_finished: options.hide_finished,
            grouping: options.grouping,
            ..self.view
        };
        let funnel: bool = view.in_progress_only || view.hide_finished || view.offline;
        let sheet = Sheet { in_progress_only: options.in_progress_only, ..self.sheet };
        let chosen = LibraryScreen { view, progress_banner: options.in_progress_only, funnel, sheet, ..self };
        let asked = if switched {
            chosen.request_render()
        } else {
            chosen
        };
        asked.render()
    }

    /// Offline mode changes, from here or from another screen. The list is
    /// rendered at once.
    pub fn offline_changed(self, active: bool) -> (r: LibraryScreen)
        ensures
            offline_taken(self, active, r),
            self.consistent() ==> r.consistent(),
    {
        let view = LibraryView { offline: active, ..self.view };
        let funnel: bool = view.in_progress_only || view.hide_finished || view.offline;
        let sheet = Sheet { downloaded_only: active, ..self.sheet };
        LibraryScreen { view, offline_banner: active, funnel, sheet, ..self }.render()
    }

    /// What is downloaded has been looked up again; `None` where that failed.
    pub fn downloaded_refetched(self, downloaded: Option<Vec<String>>) -> (r: LibraryScreen)
        ensures
            ({
                let data = match downloaded {
                    Some(ids) => LibraryData { downloaded: ids, ..self.data },
                    None => self.data,
                };
                &&& r == (LibraryScreen { sections: r.sections, ..settled(LibraryScreen { data, ..self }) })
                &&& rendered(data, self.view, r.sections@)
            }),
            self.consistent() ==> r.consistent(),
    {
        match downloaded {
            Some(ids) => {
                let data = LibraryData { downloaded: ids, ..self.data };
                LibraryScreen { data, ..self }.render()
            },
            None => self.render(),
        }
    }

    /// Shows what has been loaded.
    pub fn apply(self, data: LibraryData) -> (r: LibraryScreen)
        ensures
            applied(self, data, r),
            self.consistent() ==> r.consistent(),
    {
        let has_any_item: bool = data.items.len() > 0;
        let chips = genre_chips(&data.items);
        LibraryScreen {
            data,
            genre_chips: chips,
            status_visible: !has_any_item,
            scroller_visible: has_any_item,
            ..self
        }.render()
    }
}

/// The tab before anything is loaded.
pub fn build() -> (r: LibraryScreen)
    ensures
        r.consistent(),
        r.view.query@.len() == 0,
        r.view == (LibraryView {
            query: r.view.query,
            offline: false,
            in_progress_only: false,
            hide_finished: false,
            category: CategoryFilter::All,
            sort: SortKey::DateAdded,
            grouping: Grouping::Ungrouped,
        }),
        r.view_mode == LibraryViewMode::List,
        r.data.items.len() == 0,
        r.data.downloaded.len() == 0,
        r.data.last_listened.len() == 0,
        r.sections.len() == 0,
        r.genre_chips.len() == 0,
        r.chip == Chip::All,
        !r.status_visible,
        r.status_title == StatusTitle::NoItemsYet,
        r.scroller_visible,
        r.list_visible,
        !r.busy,
        !r.render_due,
        r.swap_due is None,
        r.sheet == (Sheet {
            downloaded_only: false,
            in_progress_only: false,
            hide_finished: false,
            grouping: 0,
            sort_by: 0,
        }),
        r.banner@ == no_banner(),
        !r.manual.in_flight,
{
    LibraryScreen {
        view: LibraryView {
            query: String::new(),
            offline: false,
            in_progress_only: false,
            hide_finished: false,
            category: CategoryFilter::All,
            sort: SortKey::DateAdded,
            grouping: Grouping::Ungrouped,
        },
        view_mode: LibraryViewMode::List,
        data: LibraryData { items: Vec::new(), downloaded: Vec::new(), last_listened: Vec::new() },
        sections: Vec::new(),
        genre_chips: Vec::new(),
        chip: Chip::All,
        genre_row: false,
        status_title: StatusTitle::NoItemsYet,
        status_visible: false,
        scroller_visible: true,
        grid_visible: false,
        list_visible: true,
        progress_banner: false,
        offline_banner: false,
        funnel: false,
        busy: false,
        render_due: false,
        swap_due: None,
        sheet: Sheet {
            downloaded_only: false,
            in_progress_only: false,
            hide_finished: false,
            grouping: 0,
            sort_by: 0,
        },
        banner: Banner::new(),
        manual: ManualSync::new(),
    }
}

/// The ids of the items.
pub open spec fn ids_of(items: Seq<Item>, ids: Seq<String>) -> bool {
    &&& ids.len() == items.len()
    &&& forall|i: int| 0 <= i < items.len() ==> #[trigger] ids[i] == items[i].id
}

fn item_ids(items: &Vec<Item>) -> (ids: Vec<String>)
    ensures
        ids_of(items@, ids@),
{
    let mut ids: Vec<String> = Vec::new();
    let mut n: usize = 0;
    while n < items.len()
        invariant
            n <= items.len(),
            ids.len() == n,
            forall|i: int| 0 <= i < n ==> #[trigger] ids[i] == items[i].id,
        decreases items.len() - n,
    {
        ids.push(items[n].id.clone());
        n = n + 1;
    }
    ids
}

/// Whether `after` is `before` showing what was read.
pub open spec fn taken(before: LibraryScreen, data: Option<LibraryData>, after: LibraryScreen) -> bool {
    match data {
        Some(data) => applied(before, data, after),
        None => after == before,
    }
}

/// Whether `after` is `before` after the sync: what was read shows, and the banner
/// reports how the sync ended.
pub open spec fn reported(
    before: LibraryScreen,
    outcome: SyncOutcome,
    data: Option<LibraryData>,
    after: LibraryScreen,
) -> bool {
    &&& taken(before, data, LibraryScreen { banner: before.banner, ..after })
    &&& after.banner@ == banner_after(before.banner@, outcome)
}

/// Whether `after` is `before` at the end of a cycle: the guard of a manual one is
/// released.
pub open spec fn ended(
    before: LibraryScreen,
    manual: bool,
    outcome: SyncOutcome,
    after: LibraryScreen,
    action: CycleAction,
) -> bool {
    &&& after == (LibraryScreen { manual: before.manual.released(manual), ..before })
    &&& action matches CycleAction::End(toast) && text_view(toast) == announcement(manual, outcome)
}

/// Whether what was read holds any item.
pub open spec fn any_item(data: Option<LibraryData>) -> bool {
    data matches Some(d) && d.items.len() > 0
}

/// One step of a cycle. The banner reports as soon as the sync has ended; where
/// there is any item, the end waits for the covers.
pub open spec fn cycle_stepped(
    before: LibraryScreen,
    cycle: Cycle,
    event: CycleEvent<LibraryData>,
    after: LibraryScreen,
    next: Cycle,
    action: CycleAction,
) -> bool {
    &&& next == (Cycle {
        stage: stage_after(cycle.stage, event, event matches CycleEvent::Read(data) && any_item(data)),
        ..cycle
    })
    &&& match (cycle.stage, event) {
        (Stage::Reading, CycleEvent::Read(data)) => taken(before, data, after) && action is Sync,
        (Stage::Syncing, CycleEvent::Synced(_)) => after == before && action is Read,
        (Stage::Rereading(outcome), CycleEvent::Read(data)) => if any_item(data) {
            &&& reported(before, outcome, data, after)
            &&& action matches CycleAction::Fetch(ids) && ids_of(data->0.items@, ids@)
        } else {
            exists|shown: LibraryScreen| #[trigger]
                reported(before, outcome, data, shown) && ended(shown, cycle.manual, outcome, after, action)
        },
        (Stage::Fetching(_), CycleEvent::Fetched) => after == before && action is Read,
        (Stage::Covering(outcome), CycleEvent::Read(data)) => exists|shown: LibraryScreen| #[trigger]
            taken(before, data, shown) && ended(shown, cycle.manual, outcome, after, action),
        _ => after == before && action is Nothing,
    }
}

/// Whether these are steps of one cycle, in order. Between them the screen may
/// have changed in any way.
pub open spec fn cycle_ran(start: Cycle, steps: Seq<CycleStep<LibraryScreen, LibraryData>>) -> bool {
    forall|i: int|
        0 <= i < steps.len() ==> cycle_stepped(
            (#[trigger] steps[i]).before,
            cycle_at(start, steps, i),
            steps[i].event,
            steps[i].after,
            steps[i].cycle,
            steps[i].action,
        )
}

/// Whether the banner reports how the sync ended, by one of the first `n` steps.
pub open spec fn told_so(
    start: Cycle,
    steps: Seq<CycleStep<LibraryScreen, LibraryData>>,
    n: int,
    outcome: SyncOutcome,
) -> bool {
    exists|j: int|
        0 <= j < n && (#[trigger] steps[j]).after.banner@ == banner_after(steps[j].before.banner@, outcome)
            && steps[j].event is Read && cycle_at(start, steps, j).stage == Stage::Rereading(outcome)
}

/// Showing what was read touches neither the guard nor the banner.
proof fn lemma_taken_keeps(before: LibraryScreen, data: Option<LibraryData>, after: LibraryScreen)
    requires
        taken(before, data, after),
    ensures
        after.manual == before.manual,
        after.banner == before.banner,
{
}

/// What was read shows, and then the banner reports.
proof fn lemma_reported(
    before: LibraryScreen,
    outcome: SyncOutcome,
    data: Option<LibraryData>,
    shown: LibraryScreen,
    after: LibraryScreen,
)
    requires
        taken(before, data, shown),
        shown.banner == before.banner,
        after == (LibraryScreen { banner: after.banner, ..shown }),
        after.banner@ == banner_after(before.banner@, outcome),
    ensures
        reported(before, outcome, data, after),
{
    assert((LibraryScreen { banner: before.banner, ..after }) == shown);
}

/// What a step does to the stage, to the guard and to the banner.
proof fn lemma_step(
    before: LibraryScreen,
    cycle: Cycle,
    event: CycleEvent<LibraryData>,
    after: LibraryScreen,
    next: Cycle,
    action: CycleAction,
)
    requires
        cycle_stepped(before, cycle, event, after, next, action),
    ensures
        next.manual == cycle.manual,
        next.stage == stage_after(cycle.stage, event, true) || next.stage == stage_after(cycle.stage, event, false),
        action is End <==> cycle.stage !is Ended && next.stage is Ended,
        action !is End ==> after.manual == before.manual,
        cycle.stage matches Stage::Rereading(outcome) ==> event is Read ==> after.banner@ == banner_after(
            before.banner@,
            outcome,
        ),
        action matches CycleAction::End(toast) ==> event is Read && after.manual == before.manual.released(cycle.manual)
            && match cycle.stage {
            Stage::Rereading(outcome) => text_view(toast) == announcement(cycle.manual, outcome),
            Stage::Covering(outcome) => text_view(toast) == announcement(cycle.manual, outcome),
            _ => false,
        },
{
    match (cycle.stage, event) {
        (Stage::Reading, CycleEvent::Read(data)) => {
            lemma_taken_keeps(before, data, after);
        },
        (Stage::Rereading(outcome), CycleEvent::Read(data)) => {
            let shown = if any_item(data) {
                after
            } else {
                choose|shown: LibraryScreen| #[trigger]
                    reported(before, outcome, data, shown) && ended(shown, cycle.manual, outcome, after, action)
            };
            assert(reported(before, outcome, data, shown));
            lemma_taken_keeps(before, data, LibraryScreen { banner: before.banner, ..shown });
        },
        (Stage::Covering(outcome), CycleEvent::Read(data)) => {
            let shown = choose|shown: LibraryScreen| #[trigger]
                taken(before, data, shown) && ended(shown, cycle.manual, outcome, after, action);
            lemma_taken_keeps(before, data, shown);
        },
        _ => {},
    }
}

/// Step `i` of a cycle.
proof fn lemma_step_at(start: Cycle, steps: Seq<CycleStep<LibraryScreen, LibraryData>>, i: int)
    requires
        cycle_ran(start, steps),
        0 <= i < steps.len(),
    ensures
        ({
            let (at, step) = (cycle_at(start, steps, i), steps[i]);
            &&& step.cycle.manual == at.manual
            &&& step.cycle.stage == stage_after(at.stage, step.event, true) || step.cycle.stage == stage_after(
                at.stage,
                step.event,
                false,
            )
            &&& step.action is End <==> at.stage !is Ended && step.cycle.stage is Ended
            &&& step.action !is End ==> step.after.manual == step.before.manual
            &&& at.stage matches Stage::Rereading(outcome) ==> step.event is Read ==> step.after.banner@
                == banner_after(step.before.banner@, outcome)
            &&& step.action matches CycleAction::End(toast) ==> step.event is Read && step.after.manual
                == step.before.manual.released(at.manual) && match at.stage {
                Stage::Rereading(outcome) => text_view(toast) == announcement(at.manual, outcome),
                Stage::Covering(outcome) => text_view(toast) == announcement(at.manual, outcome),
                _ => false,
            }
        }),
{
    let step = steps[i];
    lemma_step(step.before, cycle_at(start, steps, i), step.event, step.after, step.cycle, step.action);
}

/// The cycle goes from stage to stage.
proof fn lemma_staged(start: Cycle, steps: Seq<CycleStep<LibraryScreen, LibraryData>>)
    requires
        cycle_ran(start, steps),
    ensures
        staged(start, steps),
{
    assert forall|i: int| 0 <= i < steps.len() implies {
        let at = cycle_at(start, steps, i);
        let step = #[trigger] steps[i];
        &&& step.cycle.manual == at.manual
        &&& step.cycle.stage == stage_after(at.stage, step.event, true) || step.cycle.stage == stage_after(
            at.stage,
            step.event,
            false,
        )
        &&& step.action is End <==> at.stage !is Ended && step.cycle.stage is Ended
    } by {
        lemma_step_at(start, steps, i);
    }
}

/// Covers are fetched only once the banner has reported.
proof fn lemma_told(start: Cycle, steps: Seq<CycleStep<LibraryScreen, LibraryData>>, n: int, outcome: SyncOutcome)
    requires
        cycle_ran(start, steps),
        start.stage == Stage::Reading,
        0 <= n <= steps.len(),
        cycle_at(start, steps, n).stage == Stage::Fetching(outcome) || cycle_at(start, steps, n).stage
            == Stage::Covering(outcome),
    ensures
        told_so(start, steps, n, outcome),
    decreases n,
{
    lemma_step_at(start, steps, n - 1);
    let at = cycle_at(start, steps, n - 1);
    if at.stage == Stage::Rereading(outcome) {
        assert(steps[n - 1].event is Read);
    } else {
        lemma_told(start, steps, n - 1, outcome);
        let j = choose|j: int|
            0 <= j < n - 1 && (#[trigger] steps[j]).after.banner@ == banner_after(steps[j].before.banner@, outcome)
                && steps[j].event is Read && cycle_at(start, steps, j).stage == Stage::Rereading(outcome);
        assert(steps[j].event is Read);
    }
}

/// What the step that ends a cycle comes with.
pub open spec fn end_at(
    start: Cycle,
    steps: Seq<CycleStep<LibraryScreen, LibraryData>>,
    i: int,
    outcome: SyncOutcome,
) -> bool {
    &&& synced_so(start, steps, i, outcome)
    &&& told_so(start, steps, i + 1, outcome)
    &&& steps[i].after.manual == steps[i].before.manual.released(start.manual)
    &&& text_view(steps[i].action->End_0) == announcement(start.manual, outcome)
}

proof fn lemma_end(manual: bool, steps: Seq<CycleStep<LibraryScreen, LibraryData>>, i: int)
    requires
        cycle_ran(Cycle { manual, stage: Stage::Reading }, steps),
        0 <= i < steps.len(),
        steps[i].action is End,
    ensures
        exists|outcome: SyncOutcome|
            #[trigger] end_at(Cycle { manual, stage: Stage::Reading }, steps, i, outcome),
{
    let start = Cycle { manual, stage: Stage::Reading };
    lemma_staged(start, steps);
    lemma_cycle_at(manual, steps, i);
    lemma_step_at(start, steps, i);
    let outcome = match cycle_at(start, steps, i).stage {
        Stage::Rereading(outcome) => {
            assert(steps[i].event is Read);
            outcome
        },
        Stage::Covering(outcome) => {
            lemma_told(start, steps, i, outcome);
            let j = choose|j: int|
                0 <= j < i && (#[trigger] steps[j]).after.banner@ == banner_after(steps[j].before.banner@, outcome)
                    && steps[j].event is Read && cycle_at(start, steps, j).stage == Stage::Rereading(outcome);
            assert(steps[j].event is Read);
            outcome
        },
        _ => SyncOutcome::Synced,
    };
    assert(end_at(start, steps, i, outcome));
}

/// A cycle ends once, and no step but that one touches the guard or announces
/// anything. By then the banner has reported how the sync of the cycle ended; the
/// guard of a manual cycle is released, and its announcement says the same.
pub proof fn law_cycle_ends_once(manual: bool, steps: Seq<CycleStep<LibraryScreen, LibraryData>>)
    requires
        cycle_ran(Cycle { manual, stage: Stage::Reading }, steps),
    ensures
        ({
            let start = Cycle { manual, stage: Stage::Reading };
            &&& staged(start, steps)
            &&& forall|i: int, j: int|
                0 <= i < j < steps.len() ==> !((#[trigger] steps[i]).action is End && (#[trigger] steps[j]).action is End)
            &&& cycle_at(start, steps, steps.len() as int).stage is Ended <==> exists|i: int|
                0 <= i < steps.len() && (#[trigger] steps[i]).action is End
            &&& forall|i: int|
                0 <= i < steps.len() && (#[trigger] steps[i]).action !is End ==> steps[i].after.manual
                    == steps[i].before.manual
            &&& forall|i: int|
                0 <= i < steps.len() && (#[trigger] steps[i]).action is End ==> exists|outcome: SyncOutcome|
                    #[trigger] end_at(start, steps, i, outcome)
        }),
{
    let start = Cycle { manual, stage: Stage::Reading };
    lemma_staged(start, steps);
    assert forall|i: int, j: int| 0 <= i < j < steps.len() implies !((#[trigger] steps[i]).action is End && (
    #[trigger] steps[j]).action is End) by {
        if steps[i].action is End {
            lemma_ends_once(manual, steps, i, j);
        }
    }
    lemma_cycle_at(manual, steps, steps.len() as int);
    assert forall|i: int| 0 <= i < steps.len() && (#[trigger] steps[i]).action !is End implies steps[i].after.manual
        == steps[i].before.manual by {
        lemma_step_at(start, steps, i);
    }
    assert forall|i: int| 0 <= i < steps.len() && (#[trigger] steps[i]).action is End implies exists|
        outcome: SyncOutcome,
    |
        #[trigger] end_at(start, steps, i, outcome) by {
        lemma_end(manual, steps, i);
    }
}

impl LibraryScreen {
    /// A sync cycle is asked for. A manual one is refused while another manual
    /// one is in flight; an automatic one never is. The cycle starts with reading
    /// what is stored locally.
    pub fn cycle_asked(self, manual: bool) -> (r: (LibraryScreen, Option<Cycle>))
        ensures
            r.1 == if manual && self.manual.in_flight {
                None
            } else {
                Some(Cycle { manual, stage: Stage::Reading })
            },
            r.0 == (LibraryScreen {
                manual: ManualSync { in_flight: self.manual.in_flight || manual },
                ..self
            }),
            r.1 is None ==> r.0 == self,
            self.consistent() ==> r.0.consistent(),
    {
        if manual {
            let mut guard = self.manual;
            let granted: bool = guard.claim();
            let cycle = if granted {
                Some(Cycle { manual, stage: Stage::Reading })
            } else {
                None
            };
            (LibraryScreen { manual: guard, ..self }, cycle)
        } else {
            (self, Some(Cycle { manual, stage: Stage::Reading }))
        }
    }

    /// What is stored locally has been loaded; `None` where that failed.
    pub fn loaded(self, data: Option<LibraryData>) -> (r: LibraryScreen)
        ensures
            taken(self, data, r),
            self.consistent() ==> r.consistent(),
    {
        match data {
            Some(data) => self.apply(data),
            None => self,
        }
    }

    fn banner_reported(self, outcome: &SyncOutcome) -> (r: LibraryScreen)
        ensures
            r == (LibraryScreen { banner: r.banner, ..self }),
            r.banner@ == banner_after(self.banner@, *outcome),
            self.consistent() ==> r.consistent(),
    {
        let mut banner = self.banner;
        banner.report(outcome);
        LibraryScreen { banner, ..self }
    }

    /// The sync has ended and what is stored locally has been loaded again. The
    /// banner reports a failure; covers are to be fetched for the returned ids.
    pub fn synced(self, outcome: &SyncOutcome, data: Option<LibraryData>) -> (r: (LibraryScreen, Vec<String>))
        ensures
            reported(self, *outcome, data, r.0),
            match data {
                Some(data) => ids_of(data.items@, r.1@),
                None => r.1.len() == 0,
            },
            self.consistent() ==> r.0.consistent(),
    {
        let ids = match &data {
            Some(data) => item_ids(&data.items),
            None => Vec::new(),
        };
        let shown = self.loaded(data);
        let told = shown.banner_reported(outcome);
        proof {
            lemma_taken_keeps(self, data, shown);
            lemma_reported(self, *outcome, data, shown, told);
        }
        (told, ids)
    }

    fn cycle_ended(self, manual: bool, outcome: &SyncOutcome) -> (r: (LibraryScreen, CycleAction))
        ensures
            ended(self, manual, *outcome, r.0, r.1),
            self.consistent() ==> r.0.consistent(),
    {
        let mut guard = self.manual;
        let toast = guard.end(manual, outcome);
        (LibraryScreen { manual: guard, ..self }, CycleAction::End(toast))
    }

    /// A cycle hears something: how the screen and the cycle go on, and what is to
    /// be done next.
    pub fn cycle_step(self, cycle: Cycle, event: CycleEvent<LibraryData>) -> (r: (LibraryScreen, Cycle, CycleAction))
        ensures
            cycle_stepped(self, cycle, event, r.0, r.1, r.2),
            self.consistent() ==> r.0.consistent(),
    {
        let manual: bool = cycle.manual;
        match (cycle.stage, event) {
            (Stage::Reading, CycleEvent::Read(data)) => {
                (self.loaded(data), Cycle { manual, stage: Stage::Syncing }, CycleAction::Sync)
            },
            (Stage::Syncing, CycleEvent::Synced(outcome)) => {
                (self, Cycle { manual, stage: Stage::Rereading(outcome) }, CycleAction::Read)
            },
            (Stage::Rereading(outcome), CycleEvent::Read(data)) => {
                let (shown, ids) = self.synced(&outcome, data);
                if ids.len() > 0 {
                    (shown, Cycle { manual, stage: Stage::Fetching(outcome) }, CycleAction::Fetch(ids))
                } else {
                    assert(reported(self, outcome, data, shown));
                    let (freed, end) = shown.cycle_ended(manual, &outcome);
                    (freed, Cycle { manual, stage: Stage::Ended }, end)
                }
            },
            (Stage::Fetching(outcome), CycleEvent::Fetched) => {
                (self, Cycle { manual, stage: Stage::Covering(outcome) }, CycleAction::Read)
            },
            (Stage::Covering(outcome), CycleEvent::Read(data)) => {
                let shown = self.loaded(data);
                assert(taken(self, data, shown));
                let (freed, end) = shown.cycle_ended(manual, &outcome);
                (freed, Cycle { manual, stage: Stage::Ended }, end)
            },
            (stage, _) => (self, Cycle { manual, stage }, CycleAction::Nothing),
        }
    }

    /// The icon of the view-options button.
    pub fn view_options_icon(&self) -> (r: String)
        ensures
            r@ == if self.funnel {
                "funnel-symbolic"@
            } else {
                "preferences-other-symbolic"@
            },
    {
        if self.funnel {
            String::from_str("funnel-symbolic")
        } else {
            String::from_str("preferences-other-symbolic")
        }
    }

    /// The tooltip of the view-options button.
    pub fn view_options_tooltip(&self) -> (r: String)
        ensures
            r@ == if self.funnel {
                "Filter active — view options"@
            } else {
                "View options"@
            },
    {
        if self.funnel {
            String::from_str("Filter active — view options")
        } else {
            String::from_str("View options")
        }
    }

    /// The icon of the toggle between rows and tiles: what it changes to.
    pub fn view_toggle_icon(&self) -> (r: String)
        ensures
            r@ == if self.view_mode == LibraryViewMode::List {
                "view-grid-symbolic"@
            } else {
                "view-list-symbolic"@
            },
    {
        if self.view_mode == LibraryViewMode::List {
            String::from_str("view-grid-symbolic")
        } else {
            String::from_str("view-list-symbolic")
        }
    }

    /// The tooltip of the toggle between rows and tiles.
    pub fn view_toggle_tooltip(&self) -> (r: String)
        ensures
            r@ == if self.view_mode == LibraryViewMode::List {
                "Grid view"@
            } else {
                "List view"@
            },
    {
        if self.view_mode == LibraryViewMode::List {
            String::from_str("Grid view")
        } else {
            String::from_str("List view")
        }
    }

    /// The title of the page in place of an empty list.
    pub fn status_text(&self) -> (r: String)
        ensures
            r@ == if self.status_title == StatusTitle::NoDownloadedItems {
                "No downloaded items"@
            } else {
                "No items yet"@
            },
    {
        if self.status_title == StatusTitle::NoDownloadedItems {
            String::from_str("No downloaded items")
        } else {
            String::from_str("No items yet")
        }
    }

    /// How the item at a position is shown.
    pub fn tile(&self, position: usize) -> (r: Tile)
        requires
            position < self.data.items.len(),
        ensures
            ({
                let item = self.data.items[position as int];
                &&& r.title@ == item.title@
                &&& r.subtitle@ == subtitle(item)
                &&& r.downloaded == (self.view_mode == LibraryViewMode::Grid && listed(
                    self.data.downloaded@,
                    item.id@,
                ))
            }),
    {
        let item = &self.data.items[position];
        Tile {
            title: item.title.clone(),
            subtitle: item_subtitle(item),
            downloaded: self.view_mode == LibraryViewMode::Grid && is_listed(&self.data.downloaded, &item.id),
        }
    }

    /// The heading of a section; none without grouping.
    pub fn heading(&self, section: &Section) -> (r: Option<String>)
        ensures
            match r {
                Some(label) => self.view.grouping != Grouping::Ungrouped && label@ == section@.key.label,
                None => self.view.grouping == Grouping::Ungrouped,
            },
    {
        if self.view.grouping == Grouping::Ungrouped {
            None
        } else {
            Some(String::from_str(section.key.label()))
        }
    }
}

/// The view-options button shows a filter exactly while there is one: it shows none
/// for a view that filters nothing, and shows one once any of the three is on.
pub proof fn law_funnel(view: LibraryView)
    ensures
        !filter_active(LibraryView { in_progress_only: false, hide_finished: false, offline: false, ..view }),
        filter_active(LibraryView { in_progress_only: true, ..view }),
        filter_active(LibraryView { hide_finished: true, ..view }),
        filter_active(LibraryView { offline: true, ..view }),
{
}

/// What is loaded shows: online the list where there is any item, and otherwise the
/// page that says that there is none; offline the list where anything downloaded is
/// shown. The genres of the items are those to choose from.
pub proof fn law_loaded_page(before: LibraryScreen, data: LibraryData, after: LibraryScreen)
    requires
        applied(before, data, after),
    ensures
        after.data == data,
        after.view == before.view,
        !before.view.offline ==> (after.scroller_visible <==> data.items.len() > 0),
        before.view.offline ==> (after.scroller_visible <==> exists|x: int|
            0 <= x < data.items.len() && shows(data, before.view, #[trigger] data.items[x])),
        after.status_visible == !after.scroller_visible,
        !before.view.offline ==> after.status_title == StatusTitle::NoItemsYet,
        forall|x: int, g: Seq<char>|
            0 <= x < data.items.len() && #[trigger] listed(data.items[x].genres@, g) ==> listed(after.genre_chips@, g),
{
    assert forall|x: int, g: Seq<char>|
        0 <= x < data.items.len() && #[trigger] listed(data.items[x].genres@, g) implies listed(
        after.genre_chips@,
        g,
    ) by {
        assert(listed(after.genre_chips@, g) == has_genre(data.items@, g));
    }
}

/// Picking a chip makes it the active one. The genres show exactly with theirs, which
/// leaves the list as it is; any other brings its own grouping and category, and the
/// list is rendered anew. Order, search and filters stay.
pub proof fn law_chip_picked(screen: LibraryScreen, chip: Chip)
    ensures
        ({
            let after = screen.chip_set(chip);
            &&& after.chip == chip
            &&& after.genre_row <==> chip == Chip::Genre
            &&& chip == Chip::Genre ==> after.view == screen.view
            &&& chip != Chip::Genre ==> LibraryScreen::chip_of(after.view.grouping) == chip && after.render_due
                && after.busy
            &&& chip == Chip::All ==> forall|item: Item| in_category(item, after.view.category)
            &&& chip == Chip::Author ==> after.view.category == CategoryFilter::Author
            &&& chip == Chip::Series ==> after.view.category == CategoryFilter::Series
            &&& after.view == (LibraryView {
                category: after.view.category,
                grouping: after.view.grouping,
                ..screen.view
            })
        }),
{
}

/// Choosing a grouping in the sheet sets it, marks its row, and makes its chip the
/// active one.
pub proof fn law_grouping_chosen(screen: LibraryScreen, grouping: Grouping)
    ensures
        ({
            let after = screen.grouping_set(grouping_row(grouping));
            &&& after.view.grouping == grouping
            &&& after.sheet.grouping == grouping_row(grouping)
            &&& after.chip == LibraryScreen::chip_of(grouping)
            &&& after.chip != Chip::Genre
            &&& after.render_due
            &&& after.view == (LibraryView { category: after.view.category, grouping, ..screen.view })
        }),
{
}

/// The chips of two groupings differ.
pub proof fn law_chip_per_grouping(a: Grouping, b: Grouping)
    ensures
        LibraryScreen::chip_of(a) == LibraryScreen::chip_of(b) <==> a == b,
        LibraryScreen::chip_of(a) == Chip::All <==> a == Grouping::Ungrouped,
{
}

/// Setting the "in progress only" filter and setting it back leaves the choices as
/// they were.
pub proof fn law_in_progress_undone(screen: LibraryScreen, active: bool)
    ensures
        ({
            let there = screen.in_progress_set(active);
            &&& there.view.in_progress_only == active
            &&& there.progress_banner == active && there.sheet.in_progress_only == active
            &&& there.in_progress_set(screen.view.in_progress_only).view == screen.view
            &&& there.render_due && there.busy
            &&& there.view == (LibraryView { in_progress_only: active, ..screen.view })
        }),
{
}

/// Changing between rows and tiles is done at the next rendering and changes nothing
/// of what is shown.
pub proof fn law_mode_changed(screen: LibraryScreen, mode: LibraryViewMode)
    ensures
        ({
            let after = screen.mode_set(mode);
            &&& after.view_mode == mode && after.swap_due == Some(mode)
            &&& after.render_due && after.busy
            &&& after.view == screen.view && after.data == screen.data && after.sections == screen.sections
            &&& after.grid_visible == screen.grid_visible && after.list_visible == screen.list_visible
        }),
{
}

/// After the sync the banner reports how it ended and what was read shows. Where
/// there is any item its covers are asked for, by the ids of all of them in their
/// order; otherwise the cycle ends at once.
pub proof fn law_after_sync(
    before: LibraryScreen,
    manual: bool,
    outcome: SyncOutcome,
    data: Option<LibraryData>,
    after: LibraryScreen,
    next: Cycle,
    action: CycleAction,
)
    requires
        cycle_stepped(
            before,
            Cycle { manual, stage: Stage::Rereading(outcome) },
            CycleEvent::Read(data),
            after,
            next,
            action,
        ),
    ensures
        after.banner@.revealed == (outcome !is Synced),
        data is Some ==> after.data == data->0,
        data is None ==> after.data == before.data && after.sections == before.sections,
        after.view == before.view,
        data is Some && data->0.items.len() > 0 ==> {
            &&& next.stage == Stage::Fetching(outcome) && after.manual == before.manual
            &&& action is Fetch
            &&& action->Fetch_0@ == data->0.items@.map_values(|item: Item| item.id)
        },
        !(data is Some && data->0.items.len() > 0) ==> {
            &&& next.stage is Ended && action is End
            &&& manual ==> !after.manual.in_flight
            &&& !manual ==> after.manual == before.manual
        },
{
    if any_item(data) {
        assert(action->Fetch_0@ =~= data->0.items@.map_values(|item: Item| item.id));
    } else {
        let shown = choose|shown: LibraryScreen| #[trigger]
            reported(before, outcome, data, shown) && ended(shown, manual, outcome, after, action);
        lemma_taken_keeps(before, data, LibraryScreen { banner: before.banner, ..shown });
    }
}

} // verus!
