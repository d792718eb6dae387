//! The shell after signing in: the tabs, what covers them, and what the tabs share.
use crate::browse::{CategoryFilter, Grouping, LibraryView, SortKey};
use crate::double::Double;
use crate::home::{HomeScreen, Shelf};
use crate::library::{offline_taken, LibraryScreen};
use crate::models::PlayRequest;
use crate::player::ChapterInfo;
use crate::settings::{Account, Server};
use vstd::prelude::*;

verus! {

/// The destinations of the tab bar.
#[derive(Clone, Copy, Debug, PartialEq, Eq, Structural)]
pub enum Tab {
    Home,
    Library,
    Downloads,
    Settings,
}

/// The tab of a name; none for an unknown one.
pub open spec fn tab_named(name: Seq<char>) -> Option<Tab> {
    if name == "home"@ {
        Some(Tab::Home)
    } else if name == "library"@ {
        Some(Tab::Library)
    } else if name == "downloads"@ {
        Some(Tab::Downloads)
    } else if name == "settings"@ {
        Some(Tab::Settings)
    } else {
        None
    }
}

/// The tab of a name.
pub fn tab_for(name: &String) -> (r: Option<Tab>)
    ensures
        r == tab_named(name@),
{
    if *name == String::from_str("home") {
        Some(Tab::Home)
    } else if *name == String::from_str("library") {
        Some(Tab::Library)
    } else if *name == String::from_str("downloads") {
        Some(Tab::Downloads)
    } else if *name == String::from_str("settings") {
        Some(Tab::Settings)
    } else {
        None
    }
}

/// The name of a tab.
pub fn tab_name(tab: Tab) -> (r: String)
    ensures
        tab_named(r@) == Some(tab),
{
    proof {
        reveal_strlit("home");
        reveal_strlit("library");
        reveal_strlit("downloads");
        reveal_strlit("settings");
        assert("home"@.len() == 4 && "library"@.len() == 7);
        assert("downloads"@.len() == 9 && "settings"@.len() == 8);
    }
    match tab {
        Tab::Home => String::from_str("home"),
        Tab::Library => String::from_str("library"),
        Tab::Downloads => String::from_str("downloads"),
        Tab::Settings => String::from_str("settings"),
    }
}

/// What fills the window.
#[derive(Clone, Debug)]
pub enum Content {
    /// The tabs.
    Shell,
    /// The detail page of an item, and what playing it asks for.
    Detail(PlayRequest),
    /// The full player.
    Player,
}

/// The state of the shell.
#[derive(Clone, Debug)]
pub struct MainWindow {
    pub tab: Tab,
    pub content: Content,
    /// Whether the keys of the full player are in force.
    pub player_keys: bool,
    /// Whether the search of the Library tab has the focus.
    pub search_focused: bool,
    pub home: HomeScreen,
    pub library: LibraryScreen,
}

/// The shell with its tabs.
pub fn build(home: HomeScreen, library: LibraryScreen) -> (r: MainWindow)
    ensures
        r == (MainWindow {
            tab: Tab::Home,
            content: Content::Shell,
            player_keys: false,
            search_focused: false,
            home,
            library,
        }),
        home.consistent() && library.consistent() && home.offline == library.view.offline ==> r.consistent(),
{
    MainWindow {
        tab: Tab::Home,
        content: Content::Shell,
        player_keys: false,
        search_focused: false,
        home,
        library,
    }
}

impl MainWindow {
    /// The keys of the full player are in force exactly while it is open, and
    /// Home and Library agree about offline mode.
    pub open spec fn consistent(self) -> bool {
        &&& self.player_keys == (self.content is Player)
        &&& self.home.offline == self.library.view.offline
        &&& self.home.consistent()
        &&& self.library.consistent()
    }

    /// A tab is asked for by its name; an unknown name is ignored.
    pub fn switch_tab(self, name: &String) -> (r: MainWindow)
        ensures
            r == (MainWindow {
                tab: match tab_named(name@) {
                    Some(tab) => tab,
                    None => self.tab,
                },
                ..self
            }),
            self.consistent() ==> r.consistent(),
    {
        match tab_for(name) {
            Some(tab) => MainWindow { tab, ..self },
            None => self,
        }
    }

    /// The search of the Library tab is asked for.
    pub fn open_library_search(self) -> (r: MainWindow)
        ensures
            r == (MainWindow { tab: Tab::Library, search_focused: true, ..self }),
            self.consistent() ==> r.consistent(),
    {
        MainWindow { tab: Tab::Library, search_focused: true, ..self }
    }

    /// The way from the Library's view options to the settings.
    pub fn open_settings(self) -> (r: MainWindow)
        ensures
            r == (MainWindow { tab: Tab::Settings, ..self }),
            self.consistent() ==> r.consistent(),
    {
        MainWindow { tab: Tab::Settings, ..self }
    }

    /// A heading on Home is tapped: the Library tab, ordered by the date or, for
    /// what to go on listening to, by the last listening and only what is in
    /// progress. Nothing is stored.
    pub fn open_shelf(self, shelf: Shelf) -> (r: MainWindow)
        ensures
            r == (MainWindow {
                tab: Tab::Library,
                library: (LibraryScreen {
                    view: LibraryView {
                        sort: match shelf {
                            Shelf::RecentlyAdded => SortKey::DateAdded,
                            Shelf::ContinueListening => SortKey::LastListened,
                        },
                        ..self.library.view
                    },
                    ..self.library
                }).in_progress_set(shelf == Shelf::ContinueListening),
                ..self
            }),
            self.consistent() ==> r.consistent(),
    {
        let library = match shelf {
            Shelf::RecentlyAdded => self.library.apply_view(SortKey::DateAdded, false),
            Shelf::ContinueListening => self.library.apply_view(SortKey::LastListened, true),
        };
        MainWindow { tab: Tab::Library, library, ..self }
    }

    /// A card is tapped: the detail page of its item opens; nothing plays yet.
    pub fn open_item(self, request: PlayRequest) -> (r: MainWindow)
        ensures
            r == (MainWindow { content: Content::Detail(request), player_keys: false, ..self }),
            self.consistent() ==> r.consistent(),
    {
        MainWindow { content: Content::Detail(request), player_keys: false, ..self }
    }

    /// Play, or a chapter, is tapped on the detail page: that item is played, from
    /// the chapter where one was tapped, and the tabs come back. Nothing happens
    /// where no detail page is open.
    pub fn play(self, chapter: Option<usize>) -> (r: (MainWindow, Option<Playback>))
        ensures
            match self.content {
                Content::Detail(request) => r.0 == (MainWindow { content: Content::Shell, player_keys: false, ..self })
                    && r.1 == Some(
                    Playback {
                        request,
                        seek: match chapter {
                            Some(index) => Some(ChapterSeek { index, polls_left: CHAPTER_POLLS }),
                            None => None,
                        },
                    },
                ),
                _ => r.0 == self && r.1 is None,
            },
            self.consistent() ==> r.0.consistent(),
    {
        let MainWindow { tab, content, player_keys, search_focused, home, library } = self;
        match content {
            Content::Detail(request) => {
                let seek = match chapter {
                    Some(index) => Some(ChapterSeek::new(index)),
                    None => None,
                };
                let window = MainWindow {
                    tab,
                    content: Content::Shell,
                    player_keys: false,
                    search_focused,
                    home,
                    library,
                };
                (window, Some(Playback { request, seek }))
            },
            content => (MainWindow { tab, content, player_keys, search_focused, home, library }, None),
        }
    }

    /// The back button of the detail page.
    pub fn leave_item(self) -> (r: MainWindow)
        ensures
            r == (MainWindow { content: Content::Shell, player_keys: false, ..self }),
            self.consistent() ==> r.consistent(),
    {
        MainWindow { content: Content::Shell, player_keys: false, ..self }
    }

    /// The series button of the detail page: the Library tab shows that series.
    pub fn open_series(self, series_name: &str) -> (r: MainWindow)
        ensures
            r == (MainWindow {
                tab: Tab::Library,
                content: Content::Shell,
                player_keys: false,
                library: (LibraryScreen {
                    view: LibraryView {
                        category: r.library.view.category,
                        grouping: Grouping::Ungrouped,
                        ..self.library.view
                    },
                    ..self.library
                }).render_requested(),
                ..self
            }),
            r.library.view.category matches CategoryFilter::OneSeries(name) && name@ == series_name@,
            self.consistent() ==> r.consistent(),
    {
        let library = self.library.apply_series_filter(series_name);
        MainWindow { tab: Tab::Library, content: Content::Shell, player_keys: false, library, ..self }
    }

    /// The mini bar is tapped: the full player opens, and its keys with it.
    pub fn open_player(self) -> (r: MainWindow)
        ensures
            r == (MainWindow { content: Content::Player, player_keys: true, ..self }),
            self.consistent() ==> r.consistent(),
    {
        MainWindow { content: Content::Player, player_keys: true, ..self }
    }

    /// The full player is collapsed, and its keys go with it.
    pub fn collapse_player(self) -> (r: MainWindow)
        ensures
            r == (MainWindow { content: Content::Shell, player_keys: false, ..self }),
            self.consistent() ==> r.consistent(),
    {
        MainWindow { content: Content::Shell, player_keys: false, ..self }
    }

    /// Offline mode changes on Home or in the Library: it is one for both.
    pub fn offline_changed(self, active: bool) -> (r: MainWindow)
        ensures
            r == (MainWindow { home: r.home, library: r.library, ..self }),
            r.home == (HomeScreen { offline: active, offline_banner: active, ..self.home }),
            offline_taken(self.library, active, r.library),
            self.consistent() ==> r.consistent(),
    {
        let home = self.home.offline_changed(active);
        let library = self.library.offline_changed(active);
        MainWindow { home, library, ..self }
    }
}

/// What the login screen is filled in with, so that only the password is left to type.
#[derive(Clone, Debug)]
pub struct ReloginSeed {
    pub server_id: String,
    pub account_id: String,
    pub url: String,
    pub username: String,
}

/// The way back to the session that the shell fronts.
pub fn relogin_seed(server: &Server, account: &Account) -> (r: ReloginSeed)
    ensures
        r == (ReloginSeed {
            server_id: server.id,
            account_id: account.id,
            url: server.url,
            username: account.username,
        }),
{
    ReloginSeed {
        server_id: server.id.clone(),
        account_id: account.id.clone(),
        url: server.url.clone(),
        username: account.username.clone(),
    }
}

/// How often the chapters are looked for before a seek to one is given up.
pub const CHAPTER_POLLS: u32 = 50;

/// A seek to a chapter that waits for the chapters to be known.
#[derive(Clone, Copy, Debug, PartialEq, Eq, Structural)]
pub struct ChapterSeek {
    pub index: usize,
    pub polls_left: u32,
}

/// A playback to start.
#[derive(Clone, Debug)]
pub struct Playback {
    pub request: PlayRequest,
    pub seek: Option<ChapterSeek>,
}

/// What a look at the chapters leads to.
#[derive(Clone, Copy, Debug, PartialEq, Eq, Structural)]
pub enum SeekStep {
    /// Seeks, once.
    Seek(Double),
    /// Waits for a tenth of a second and looks again.
    Wait(ChapterSeek),
    GiveUp,
}

impl ChapterSeek {
    pub fn new(index: usize) -> (r: ChapterSeek)
        ensures
            r == (ChapterSeek { index, polls_left: CHAPTER_POLLS }),
    {
        ChapterSeek { index, polls_left: CHAPTER_POLLS }
    }

    /// Looks for the chapter.
    pub open spec fn step(self, chapters: Seq<ChapterInfo>) -> SeekStep {
        if self.polls_left == 0 {
            SeekStep::GiveUp
        } else if self.index < chapters.len() {
            SeekStep::Seek(chapters[self.index as int].start)
        } else {
            SeekStep::Wait(ChapterSeek { polls_left: (self.polls_left - 1) as u32, ..self })
        }
    }

    /// Looks for the chapter.
    pub fn poll(self, chapters: &Vec<ChapterInfo>) -> (r: SeekStep)
        ensures
            r == self.step(chapters@),
    {
        if self.polls_left == 0 {
            SeekStep::GiveUp
        } else if self.index < chapters.len() {
            SeekStep::Seek(chapters[self.index].start)
        } else {
            SeekStep::Wait(ChapterSeek { polls_left: self.polls_left - 1, ..self })
        }
    }
}

/// What looking again and again comes to: the chapters as they were found at
/// each look, in order.
pub open spec fn seek_run(seek: ChapterSeek, looks: Seq<Seq<ChapterInfo>>) -> SeekStep
    decreases looks.len(),
{
    if looks.len() == 0 {
        SeekStep::Wait(seek)
    } else {
        match seek.step(looks[0]) {
            SeekStep::Wait(next) => seek_run(next, looks.skip(1)),
            done => done,
        }
    }
}

/// The seek goes to the chapter as soon as it is known, if that is within the
/// looks it has; otherwise it is given up.
pub proof fn law_seek_bounded(seek: ChapterSeek, looks: Seq<Seq<ChapterInfo>>, n: int)
    requires
        0 <= n < looks.len(),
        forall|k: int| 0 <= k < n ==> (#[trigger] looks[k]).len() <= seek.index,
        looks[n].len() > seek.index,
    ensures
        seek_run(seek, looks) == if n < seek.polls_left {
            SeekStep::Seek(looks[n][seek.index as int].start)
        } else {
            SeekStep::GiveUp
        },
    decreases looks.len(),
{
    if seek.polls_left > 0 && n > 0 {
        assert(looks[0].len() <= seek.index);
        let next = ChapterSeek { polls_left: (seek.polls_left - 1) as u32, ..seek };
        let rest = looks.skip(1);
        assert forall|k: int| 0 <= k < n - 1 implies (#[trigger] rest[k]).len() <= next.index by {
            assert(rest[k] == looks[k + 1]);
        }
        assert(rest[n - 1] == looks[n]);
        law_seek_bounded(next, rest, n - 1);
    }
}

/// Where the chapter never comes to be known, the seek waits for as many looks
/// as it has and is then given up.
pub proof fn law_seek_given_up(seek: ChapterSeek, looks: Seq<Seq<ChapterInfo>>)
    requires
        forall|k: int| 0 <= k < looks.len() ==> (#[trigger] looks[k]).len() <= seek.index,
    ensures
        seek_run(seek, looks) == if looks.len() <= seek.polls_left {
            SeekStep::Wait(ChapterSeek { polls_left: (seek.polls_left - looks.len()) as u32, ..seek })
        } else {
            SeekStep::GiveUp
        },
    decreases looks.len(),
{
    if looks.len() > 0 && seek.polls_left > 0 {
        assert(looks[0].len() <= seek.index);
        let next = ChapterSeek { polls_left: (seek.polls_left - 1) as u32, ..seek };
        let rest = looks.skip(1);
        assert forall|k: int| 0 <= k < rest.len() implies (#[trigger] rest[k]).len() <= next.index by {
            assert(rest[k] == looks[k + 1]);
        }
        law_seek_given_up(next, rest);
    }
}

/// However the shell is used, an offline toggle on one screen is at once the
/// other's: both show only what is downloaded, or both everything, and that is
/// what the Library's choices say when they are stored.
pub proof fn law_offline_shared(before: MainWindow, active: bool, after: MainWindow)
    requires
        after.home == (HomeScreen { offline: active, offline_banner: active, ..before.home }),
        offline_taken(before.library, active, after.library),
    ensures
        after.home.offline == after.library.view.offline,
        after.home.offline_banner == after.library.offline_banner,
        after.library.sheet.downloaded_only == active,
        after.library.options().downloaded_only == active,
{
}

} // verus!
