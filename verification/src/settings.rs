//! The Settings tab: the account, the servers, playback and appearance.
use crate::double::{absolute, epsilon, law_plus, one, Double, Num};
use crate::rounding::apart;
use crate::text::{chars_of, decimal, digits, text_of};
use vstd::arithmetic::power2::{lemma2_to64, lemma_pow2_adds, lemma_pow2_pos, lemma_pow2_strictly_increases, pow2};
use vstd::prelude::*;

verus! {

/// The text up to the first occurrence of a character; all of it without one.
pub open spec fn before_first(s: Seq<char>, c: char) -> Seq<char>
    decreases s.len(),
{
    if s.len() == 0 || s[0] == c {
        Seq::empty()
    } else {
        seq![s[0]] + before_first(s.skip(1), c)
    }
}

/// The text after the first "://"; none without one.
pub open spec fn after_scheme(s: Seq<char>) -> Option<Seq<char>>
    decreases s.len(),
{
    if s.len() < 3 {
        None
    } else if s[0] == ':' && s[1] == '/' && s[2] == '/' {
        Some(s.skip(3))
    } else {
        after_scheme(s.skip(1))
    }
}

/// The host, with its port, of a URL.
pub open spec fn host_text(url: Seq<char>) -> Seq<char> {
    before_first(
        match after_scheme(url) {
            Some(rest) => rest,
            None => url,
        },
        '/',
    )
}

/// Up to the first occurrence the text is a prefix without the character.
proof fn lemma_before_first(s: Seq<char>, c: char, n: int)
    requires
        0 <= n <= s.len(),
        forall|i: int| 0 <= i < n ==> s[i] != c,
        n < s.len() ==> s[n] == c,
    ensures
        before_first(s, c) == s.take(n),
    decreases s.len(),
{
    if n > 0 {
        lemma_before_first(s.skip(1), c, n - 1);
        assert(s.take(n) =~= seq![s[0]] + s.skip(1).take(n - 1));
    } else {
        assert(s.take(0) =~= Seq::<char>::empty());
    }
}

/// The host, with its port, of a URL: what follows the scheme, up to the path.
pub fn host_of(url: &str) -> (r: String)
    ensures
        r@ == host_text(url@),
{
    let v = chars_of(url);
    let mut from: usize = 0;
    let mut i: usize = 0;
    let mut found: bool = false;
    assert(v@.skip(0) =~= v@);
    while !found && v.len() - i >= 3
        invariant
            i <= v.len(),
            v@ == url@,
            found ==> i + 3 <= v.len() && from == i + 3 && after_scheme(v@) == Some(v@.skip(from as int)),
            !found ==> from == 0 && after_scheme(v@) == after_scheme(v@.skip(i as int)),
        decreases v.len() - i + if found { 0int } else { 1int },
    {
        let ghost rest = v@.skip(i as int);
        assert(rest[0] == v[i as int] && rest[1] == v[i + 1] && rest[2] == v[i + 2]);
        if v[i] == ':' && v[i + 1] == '/' && v[i + 2] == '/' {
            assert(rest.skip(3) =~= v@.skip(i + 3));
            found = true;
            from = i + 3;
        } else {
            assert(rest.skip(1) =~= v@.skip(i + 1));
            i = i + 1;
        }
    }
    let ghost tail = v@.skip(from as int);
    assert(!found ==> tail =~= v@);
    let mut to: usize = from;
    while to < v.len() && v[to] != '/'
        invariant
            from <= to <= v.len(),
            tail == v@.skip(from as int),
            forall|k: int| 0 <= k < to - from ==> tail[k] != '/',
        decreases v.len() - to,
    {
        assert(tail[to - from] == v[to as int]);
        to = to + 1;
    }
    proof {
        if to < v.len() {
            assert(tail[to - from] == v[to as int]);
        }
        lemma_before_first(tail, '/', to - from);
        assert(tail.take(to - from) =~= v@.subrange(from as int, to as int));
    }
    text_of(&v, from, to)
}

/// A host has no slash, and is its own host.
pub proof fn law_host(url: Seq<char>)
    ensures
        !host_text(url).contains('/'),
        host_text(host_text(url)) == host_text(url),
{
    let rest = match after_scheme(url) {
        Some(rest) => rest,
        None => url,
    };
    lemma_no_char(rest, '/');
    let host = host_text(url);
    lemma_no_scheme(host);
    lemma_before_first(host, '/', host.len() as int);
    assert(host.take(host.len() as int) =~= host);
}

proof fn lemma_no_char(s: Seq<char>, c: char)
    ensures
        !before_first(s, c).contains(c),
    decreases s.len(),
{
    if s.len() > 0 && s[0] != c {
        lemma_no_char(s.skip(1), c);
        let r = before_first(s, c);
        let t = before_first(s.skip(1), c);
        if r.contains(c) {
            let i = choose|i: int| 0 <= i < r.len() && r[i] == c;
            assert(t[i - 1] == c);
            assert(t.contains(c));
        }
    }
}

proof fn lemma_no_scheme(s: Seq<char>)
    requires
        !s.contains('/'),
    ensures
        after_scheme(s) is None,
    decreases s.len(),
{
    if s.len() >= 3 {
        if s[1] == '/' {
            assert(s.contains('/'));
        }
        let t = s.skip(1);
        if t.contains('/') {
            let i = choose|i: int| 0 <= i < t.len() && t[i] == '/';
            assert(s[i + 1] == '/');
            assert(s.contains('/'));
        }
        lemma_no_scheme(t);
    }
}

/// A server.
#[derive(Clone, Debug)]
pub struct Server {
    pub id: String,
    pub url: String,
}

/// An account on a server.
#[derive(Clone, Debug)]
pub struct Account {
    pub id: String,
    pub username: String,
    pub is_active: bool,
}

/// A server with its accounts.
#[derive(Clone, Debug)]
pub struct ServerEntry {
    pub server: Server,
    pub accounts: Vec<Account>,
}

/// Whether one of the accounts is active.
pub open spec fn has_active(accounts: Seq<Account>) -> bool {
    exists|i: int| 0 <= i < accounts.len() && (#[trigger] accounts[i]).is_active
}

/// Whether an account, by the places of its server and of itself, is the first active one.
pub open spec fn first_active(servers: Seq<ServerEntry>, s: int, a: int) -> bool {
    &&& 0 <= s < servers.len()
    &&& 0 <= a < servers[s].accounts.len()
    &&& servers[s].accounts[a].is_active
    &&& forall|k: int| 0 <= k < s ==> !has_active((#[trigger] servers[k]).accounts@)
    &&& forall|k: int| 0 <= k < a ==> !(#[trigger] servers[s].accounts[k]).is_active
}

/// The place of the first active account; none where there is none.
fn find_active(accounts: &Vec<Account>) -> (r: Option<usize>)
    ensures
        match r {
            Some(a) => a < accounts.len() && accounts[a as int].is_active && forall|k: int|
                0 <= k < a ==> !(#[trigger] accounts[k]).is_active,
            None => !has_active(accounts@),
        },
{
    let mut i: usize = 0;
    while i < accounts.len()
        invariant
            i <= accounts.len(),
            forall|k: int| 0 <= k < i ==> !(#[trigger] accounts[k]).is_active,
        decreases accounts.len() - i,
    {
        if accounts[i].is_active {
            return Some(i);
        }
        i = i + 1;
    }
    None
}

/// The places of the server and of the account that is active; none where no
/// account is.
pub fn active_account(servers: &Vec<ServerEntry>) -> (r: Option<(usize, usize)>)
    ensures
        match r {
            Some((s, a)) => first_active(servers@, s as int, a as int),
            None => forall|k: int| 0 <= k < servers.len() ==> !has_active((#[trigger] servers[k]).accounts@),
        },
{
    let mut s: usize = 0;
    while s < servers.len()
        invariant
            s <= servers.len(),
            forall|k: int| 0 <= k < s ==> !has_active((#[trigger] servers[k]).accounts@),
        decreases servers.len() - s,
    {
        match find_active(&servers[s].accounts) {
            Some(a) => {
                return Some((s, a));
            },
            None => {},
        }
        s = s + 1;
    }
    None
}

/// The row of a server: its host, who is signed in, and what its menu offers.
#[derive(Clone, Debug)]
pub struct ServerRow {
    pub title: String,
    pub subtitle: String,
    pub can_switch: bool,
    pub can_sign_out: bool,
}

/// The row of a server.
pub struct ServerRowView {
    pub title: Seq<char>,
    pub subtitle: Seq<char>,
    pub can_switch: bool,
    pub can_sign_out: bool,
}

impl View for ServerRow {
    type V = ServerRowView;

    open spec fn view(&self) -> ServerRowView {
        ServerRowView {
            title: self.title@,
            subtitle: self.subtitle@,
            can_switch: self.can_switch,
            can_sign_out: self.can_sign_out,
        }
    }
}

/// The row of a server: switching makes sense to a server with an account that
/// is not the active one; signing out, to one with an account.
pub open spec fn row_of(entry: ServerEntry) -> ServerRowView {
    let active = has_active(entry.accounts@);
    let any = entry.accounts.len() > 0;
    ServerRowView {
        title: host_text(entry.server.url@),
        subtitle: if !any {
            "No signed-in account"@
        } else if active {
            entry.accounts[0].username@ + " · active"@
        } else {
            entry.accounts[0].username@
        },
        can_switch: !active && any,
        can_sign_out: any,
    }
}

/// The row of a server.
pub fn server_row(entry: &ServerEntry) -> (r: ServerRow)
    ensures
        r@ == row_of(*entry),
{
    let active: bool = match find_active(&entry.accounts) {
        Some(_) => true,
        None => false,
    };
    let any: bool = entry.accounts.len() > 0;
    let subtitle = if !any {
        String::from_str("No signed-in account")
    } else if active {
        entry.accounts[0].username.clone().concat(" · active")
    } else {
        entry.accounts[0].username.clone()
    };
    ServerRow { title: host_of(entry.server.url.as_str()), subtitle, can_switch: !active && any, can_sign_out: any }
}

/// The texts of a question that must be answered before something is lost.
#[derive(Clone, Debug)]
pub struct Confirmation {
    pub heading: String,
    pub body: String,
    pub label: String,
}

/// What signing out loses.
pub open spec fn sign_out_body(username: Seq<char>) -> Seq<char> {
    username
        + "'s listening progress and bookmarks stored on this device will be removed — everything on the server stays where it is."@
}

fn body_of_sign_out(username: &str) -> (r: String)
    ensures
        r@ == sign_out_body(username@),
{
    String::from_str(username).concat(
        "'s listening progress and bookmarks stored on this device will be removed — everything on the server stays where it is.",
    )
}

/// The question before signing an account out.
pub fn confirm_sign_out(username: &str) -> (r: Confirmation)
    ensures
        r.heading@ == "Sign out of "@ + username@ + "?"@,
        r.body@ == sign_out_body(username@),
        r.label@ == "Sign Out"@,
{
    Confirmation {
        heading: String::from_str("Sign out of ").concat(username).concat("?"),
        body: body_of_sign_out(username),
        label: String::from_str("Sign Out"),
    }
}

/// The question before disconnecting from a server.
pub fn confirm_disconnect(url: &str, username: &str) -> (r: Confirmation)
    ensures
        r.heading@ == "Disconnect from "@ + host_text(url@) + "?"@,
        r.body@ == sign_out_body(username@),
        r.label@ == "Disconnect"@,
{
    let host = host_of(url);
    Confirmation {
        heading: String::from_str("Disconnect from ").concat(host.as_str()).concat("?"),
        body: body_of_sign_out(username),
        label: String::from_str("Disconnect"),
    }
}

/// The question before removing a server.
pub fn confirm_remove_server(url: &str) -> (r: Confirmation)
    ensures
        r.heading@ == "Remove "@ + host_text(url@) + "?"@,
        r.body@
            == "Every account, cached library, item and downloaded file for this server will be removed from this device. Everything on the server itself stays untouched."@,
        r.label@ == "Remove Server"@,
{
    let host = host_of(url);
    Confirmation {
        heading: String::from_str("Remove ").concat(host.as_str()).concat("?"),
        body: String::from_str(
            "Every account, cached library, item and downloaded file for this server will be removed from this device. Everything on the server itself stays untouched.",
        ),
        label: String::from_str("Remove Server"),
    }
}

/// The answer to a question.
#[derive(Clone, Copy, Debug, PartialEq, Eq, Structural)]
pub enum Answer {
    Affirmative,
    Cancel,
    Closed,
}

/// Whether what was asked for is done: only on the affirmative answer.
pub fn confirm(answer: Answer) -> (r: bool)
    ensures
        r == (answer == Answer::Affirmative),
{
    answer == Answer::Affirmative
}

/// The seconds that a skip can have.
pub open spec fn skip_choices_spec() -> Seq<i64> {
    seq![5i64, 10, 15, 20, 30, 45, 60]
}

/// The seconds that a skip can have.
pub fn skip_choices() -> (r: Vec<i64>)
    ensures
        r@ == skip_choices_spec(),
{
    let r: Vec<i64> = vec![5, 10, 15, 20, 30, 45, 60];
    assert(r@ =~= skip_choices_spec());
    r
}

/// The labels of the skip choices.
pub fn skip_labels() -> (r: Vec<String>)
    ensures
        r.len() == skip_choices_spec().len(),
        forall|i: int|
            0 <= i < r.len() ==> (#[trigger] r[i])@ == digits(skip_choices_spec()[i] as nat) + " sec"@,
{
    let choices = skip_choices();
    let mut r: Vec<String> = Vec::new();
    let mut n: usize = 0;
    while n < choices.len()
        invariant
            n <= choices.len(),
            choices@ == skip_choices_spec(),
            r.len() == n,
            forall|i: int|
                0 <= i < n ==> (#[trigger] r[i])@ == digits(skip_choices_spec()[i] as nat) + " sec"@,
        decreases choices.len() - n,
    {
        r.push(decimal(choices[n] as u64).concat(" sec"));
        n = n + 1;
    }
    r
}

/// Whether `i` is the place of the first of the choices that is `x`; the number
/// of choices where none is.
pub open spec fn first_place(choices: Seq<i64>, x: i64, i: int) -> bool {
    &&& 0 <= i <= choices.len()
    &&& forall|k: int| 0 <= k < i ==> choices[k] != x
    &&& i < choices.len() ==> choices[i] == x
}

fn place_among(choices: &Vec<i64>, x: i64) -> (i: usize)
    ensures
        first_place(choices@, x, i as int),
{
    let mut i: usize = 0;
    while i < choices.len() && choices[i] != x
        invariant
            i <= choices.len(),
            forall|k: int| 0 <= k < i ==> choices[k] != x,
        decreases choices.len() - i,
    {
        i = i + 1;
    }
    i
}

/// The row of a skip interval: its own, or else that of the fallback, or else the first.
pub fn skip_index(seconds: i64, fallback: i64) -> (r: u32)
    ensures
        ({
            let c = skip_choices_spec();
            &&& r < c.len()
            &&& c.contains(seconds) ==> c[r as int] == seconds
            &&& !c.contains(seconds) && c.contains(fallback) ==> c[r as int] == fallback
            &&& !c.contains(seconds) && !c.contains(fallback) ==> r == 0
        }),
{
    let choices = skip_choices();
    let i: usize = place_among(&choices, seconds);
    if i < choices.len() {
        return i as u32;
    }
    assert(!choices@.contains(seconds));
    let j: usize = place_among(&choices, fallback);
    if j < choices.len() {
        j as u32
    } else {
        assert(!choices@.contains(fallback));
        0
    }
}

/// A skip interval and its row correspond.
pub proof fn law_skip_rows(i: int, j: int)
    requires
        0 <= i < skip_choices_spec().len(),
        0 <= j < skip_choices_spec().len(),
    ensures
        skip_choices_spec()[i] == skip_choices_spec()[j] ==> i == j,
{
}

/// Whether a preset is a speed, up to the least difference.
pub open spec fn is_preset(preset: Num, speed: Num) -> bool {
    absolute(preset.plus(speed.negated())).less(epsilon())
}

/// Whether `i` is the place of the first preset that is a speed; the number of
/// presets where none is.
pub open spec fn first_preset(presets: Seq<Double>, speed: Num, i: int) -> bool {
    &&& 0 <= i <= presets.len()
    &&& forall|k: int| 0 <= k < i ==> !is_preset((#[trigger] presets[k])@, speed)
    &&& i < presets.len() ==> is_preset(presets[i]@, speed)
}

fn place_of_preset(presets: &Vec<Double>, speed: Double) -> (i: usize)
    ensures
        first_preset(presets@, speed@, i as int),
{
    let mut i: usize = 0;
    while i < presets.len()
        invariant
            i <= presets.len(),
            forall|k: int| 0 <= k < i ==> !is_preset((#[trigger] presets[k])@, speed@),
        decreases presets.len() - i,
    {
        if presets[i].minus(speed).absolute().less(Double::epsilon()) {
            return i;
        }
        i = i + 1;
    }
    i
}

/// The row of a speed: its own, or else that of the default speed, or else the first.
pub open spec fn speed_row(presets: Seq<Double>, speed: Num, default_speed: Num, r: int) -> bool {
    ||| r < presets.len() && first_preset(presets, speed, r)
    ||| first_preset(presets, speed, presets.len() as int) && r < presets.len() && first_preset(
        presets,
        default_speed,
        r,
    )
    ||| first_preset(presets, speed, presets.len() as int) && first_preset(
        presets,
        default_speed,
        presets.len() as int,
    ) && r == 0
}

/// The row of a speed.
pub fn speed_index(presets: &Vec<Double>, speed: Double, default_speed: Double) -> (r: u32)
    requires
        presets.len() <= u32::MAX,
    ensures
        speed_row(presets@, speed@, default_speed@, r as int),
{
    let i: usize = place_of_preset(presets, speed);
    if i < presets.len() {
        return i as u32;
    }
    let j: usize = place_of_preset(presets, default_speed);
    if j < presets.len() {
        j as u32
    } else {
        0
    }
}

/// The appearance.
#[derive(Clone, Copy, Debug, PartialEq, Eq, Structural)]
pub enum Theme {
    System,
    Light,
    Dark,
}

/// The row of a theme.
pub open spec fn theme_row(theme: Theme) -> u32 {
    match theme {
        Theme::System => 0,
        Theme::Light => 1,
        Theme::Dark => 2,
    }
}

/// The theme of a row; any other row is that of the system.
pub open spec fn theme_at(row: u32) -> Theme {
    if row == 1 {
        Theme::Light
    } else if row == 2 {
        Theme::Dark
    } else {
        Theme::System
    }
}

/// The row of a theme.
pub fn theme_index(theme: Theme) -> (r: u32)
    ensures
        r == theme_row(theme),
{
    match theme {
        Theme::System => 0,
        Theme::Light => 1,
        Theme::Dark => 2,
    }
}

/// The theme of a row.
pub fn theme_from_index(index: u32) -> (r: Theme)
    ensures
        r == theme_at(index),
{
    match index {
        1 => Theme::Light,
        2 => Theme::Dark,
        _ => Theme::System,
    }
}

/// A theme and its row correspond.
pub proof fn law_theme_rows(theme: Theme, row: u32)
    ensures
        theme_at(theme_row(theme)) == theme,
        row < 3 ==> theme_row(theme_at(row)) == row,
{
}

/// The playback settings, stored as a whole.
#[derive(Clone, Copy, Debug, PartialEq, Eq, Structural)]
pub struct PlaybackSettings {
    pub pause_on_headphone_unplug: bool,
    pub resume_on_headphone_replug: bool,
    pub default_speed: Double,
    pub skip_back_seconds: i64,
    pub skip_forward_seconds: i64,
    pub wifi_only_downloads: bool,
}

/// What is to be stored, and whether something is storing. Two writes at once
/// could leave a mixture of both behind, so there is one writer at most; it
/// stores what waits until nothing does.
#[derive(Clone, Copy, Debug, PartialEq, Eq, Structural)]
pub struct Saver {
    pub pending: Option<PlaybackSettings>,
    pub running: bool,
}

impl Saver {
    /// Whatever waits, waits for a writer that runs.
    pub open spec fn well_formed(self) -> bool {
        self.pending is Some ==> self.running
    }

    /// Settings to be stored take the place of any that wait.
    pub open spec fn submitted(self, settings: PlaybackSettings) -> Saver {
        Saver { pending: Some(settings), running: true }
    }

    /// The writer takes what waits; with nothing left it stops.
    pub open spec fn taken(self) -> Saver {
        Saver { pending: None, running: self.pending is Some }
    }

    pub fn new() -> (r: Saver)
        ensures
            r == (Saver { pending: None, running: false }),
            r.well_formed(),
    {
        Saver { pending: None, running: false }
    }

    /// Settings are to be stored. Whether a writer is to be started.
    pub fn submit(self, settings: PlaybackSettings) -> (r: (Saver, bool))
        ensures
            r.0 == self.submitted(settings),
            r.1 == !self.running,
            r.0.well_formed(),
    {
        (Saver { pending: Some(settings), running: true }, !self.running)
    }

    /// The writer asks for what to store next; with nothing left it stops.
    pub fn take_pending(self) -> (r: (Saver, Option<PlaybackSettings>))
        ensures
            r.0 == self.taken(),
            r.1 == self.pending,
            r.0.well_formed(),
    {
        match self.pending {
            Some(settings) => (Saver { pending: None, running: true }, Some(settings)),
            None => (Saver { pending: None, running: false }, None),
        }
    }
}

/// What happens to a saver.
pub enum SaverEvent {
    Submit(PlaybackSettings),
    Take,
}

/// What a saver has come to: its state, the settings submitted to it, the
/// settings handed to writers, and how many writers were started.
pub struct SaverRun {
    pub saver: Saver,
    pub submitted: Seq<PlaybackSettings>,
    pub stored: Seq<PlaybackSettings>,
    pub writers: nat,
    pub finished: nat,
}

/// A saver after some events. Only a writer that runs takes anything.
pub open spec fn run_saver(events: Seq<SaverEvent>) -> SaverRun
    decreases events.len(),
{
    if events.len() == 0 {
        SaverRun {
            saver: Saver { pending: None, running: false },
            submitted: Seq::empty(),
            stored: Seq::empty(),
            writers: 0,
            finished: 0,
        }
    } else {
        let before = run_saver(events.drop_last());
        match events.last() {
            SaverEvent::Submit(settings) => SaverRun {
                saver: before.saver.submitted(settings),
                submitted: before.submitted.push(settings),
                writers: before.writers + if before.saver.running {
                    0nat
                } else {
                    1nat
                },
                ..before
            },
            SaverEvent::Take => if before.saver.running {
                SaverRun {
                    saver: before.saver.taken(),
                    stored: match before.saver.pending {
                        Some(settings) => before.stored.push(settings),
                        None => before.stored,
                    },
                    finished: before.finished + if before.saver.pending is Some {
                        0nat
                    } else {
                        1nat
                    },
                    ..before
                }
            } else {
                before
            },
        }
    }
}

/// Whether `part` is what is left of `whole` when some of it is left out: nothing
/// else is in it, nothing more often, and the order is the same.
pub open spec fn subsequence(part: Seq<PlaybackSettings>, whole: Seq<PlaybackSettings>) -> bool
    decreases whole.len(),
{
    if part.len() == 0 {
        true
    } else if whole.len() == 0 {
        false
    } else {
        ||| part.last() == whole.last() && subsequence(part.drop_last(), whole.drop_last())
        ||| subsequence(part, whole.drop_last())
    }
}

/// However settings are changed and stored: there is one writer at most; what
/// waits is what was changed last, and is not stored yet; once nothing waits, the
/// last thing stored is the last change; and only changes are stored, each once
/// at most and in the order in which they were made.
pub proof fn law_saver(events: Seq<SaverEvent>)
    ensures
        ({
            let r = run_saver(events);
            &&& r.saver.well_formed()
            &&& r.writers == r.finished + if r.saver.running {
                1nat
            } else {
                0nat
            }
            &&& r.saver.pending matches Some(p) ==> r.submitted.len() > 0 && p == r.submitted.last()
            &&& r.saver.pending is None ==> {
                ||| r.submitted.len() == 0 && r.stored.len() == 0
                ||| r.submitted.len() > 0 && r.stored.len() > 0 && r.stored.last() == r.submitted.last()
            }
            &&& r.stored.len() + if r.saver.pending is Some {
                1nat
            } else {
                0nat
            } <= r.submitted.len()
            &&& subsequence(r.stored, r.submitted)
            &&& r.saver.pending is Some ==> subsequence(r.stored, r.submitted.drop_last())
        }),
    decreases events.len(),
{
    if events.len() > 0 {
        law_saver(events.drop_last());
        let before = run_saver(events.drop_last());
        let r = run_saver(events);
        match events.last() {
            SaverEvent::Submit(settings) => {
                assert(r.submitted.drop_last() =~= before.submitted);
            },
            SaverEvent::Take => {
                if before.saver.pending is Some {
                    assert(r.stored.drop_last() =~= before.stored);
                }
            },
        }
    }
}

/// The state of the tab.
#[derive(Clone, Debug)]
pub struct SettingsScreen {
    pub settings: PlaybackSettings,
    pub theme: Theme,
    pub saver: Saver,
    /// The speeds to choose from.
    pub presets: Vec<Double>,
    pub account_title: String,
    pub account_subtitle: String,
    pub server_rows: Vec<ServerRow>,
    pub speed_row: u32,
    pub skip_back_row: u32,
    pub skip_forward_row: u32,
    /// Whether resuming can be chosen: only a pause can be undone.
    pub resume_sensitive: bool,
}

/// Whether some account is active.
pub open spec fn signed_in(servers: Seq<ServerEntry>) -> bool {
    exists|k: int| 0 <= k < servers.len() && has_active((#[trigger] servers[k]).accounts@)
}

/// The tab. An account is signed in: the tab is part of a signed-in session.
pub fn build(
    settings: PlaybackSettings,
    theme: Theme,
    servers: &Vec<ServerEntry>,
    presets: Vec<Double>,
    default_speed: Double,
) -> (r: SettingsScreen)
    requires
        signed_in(servers@),
        presets.len() <= u32::MAX,
    ensures
        r.settings == settings,
        r.theme == theme,
        r.saver == (Saver { pending: None, running: false }),
        r.presets == presets,
        exists|s: int, a: int|
            #[trigger] first_active(servers@, s, a) && r.account_title@ == servers[s].accounts[a].username@
                && r.account_subtitle@ == host_text(servers[s].server.url@) + " · active"@,
        r.server_rows.len() == servers.len(),
        forall|i: int| 0 <= i < servers.len() ==> (#[trigger] r.server_rows[i])@ == row_of(servers[i]),
        speed_row(presets@, settings.default_speed@, default_speed@, r.speed_row as int),
        r.skip_back_row < skip_choices_spec().len(),
        skip_choices_spec()[r.skip_back_row as int] == if skip_choices_spec().contains(settings.skip_back_seconds) {
            settings.skip_back_seconds
        } else {
            15
        },
        r.skip_forward_row < skip_choices_spec().len(),
        skip_choices_spec()[r.skip_forward_row as int] == if skip_choices_spec().contains(
            settings.skip_forward_seconds,
        ) {
            settings.skip_forward_seconds
        } else {
            30
        },
        r.resume_sensitive == settings.pause_on_headphone_unplug,
{
    let mut rows: Vec<ServerRow> = Vec::new();
    let mut n: usize = 0;
    while n < servers.len()
        invariant
            n <= servers.len(),
            rows.len() == n,
            forall|i: int| 0 <= i < n ==> (#[trigger] rows[i])@ == row_of(servers[i]),
        decreases servers.len() - n,
    {
        rows.push(server_row(&servers[n]));
        n = n + 1;
    }
    let (account_title, account_subtitle) = match active_account(servers) {
        Some((s, a)) => {
            let host = host_of(servers[s].server.url.as_str());
            assert(first_active(servers@, s as int, a as int));
            (servers[s].accounts[a].username.clone(), host.concat(" · active"))
        },
        None => (String::new(), String::new()),
    };
    let speed_row: u32 = speed_index(&presets, settings.default_speed, default_speed);
    proof {
        let c = skip_choices_spec();
        assert(c[2] == 15 && c[4] == 30);
        assert(c.contains(15) && c.contains(30));
    }
    SettingsScreen {
        settings,
        theme,
        saver: Saver::new(),
        presets,
        account_title,
        account_subtitle,
        server_rows: rows,
        speed_row,
        skip_back_row: skip_index(settings.skip_back_seconds, 15),
        skip_forward_row: skip_index(settings.skip_forward_seconds, 30),
        resume_sensitive: settings.pause_on_headphone_unplug,
    }
}

impl SettingsScreen {
    /// The settings are changed as a whole and go to the saver.
    pub open spec fn changed(self, settings: PlaybackSettings) -> SettingsScreen {
        SettingsScreen { settings, saver: self.saver.submitted(settings), ..self }
    }

    /// Changed settings are in force at once and are to be stored. Whether a
    /// writer is to be started.
    fn persist(self, settings: PlaybackSettings) -> (r: (SettingsScreen, bool))
        ensures
            r.0 == self.changed(settings),
            r.1 == !self.saver.running,
    {
        let (saver, start) = self.saver.submit(settings);
        (SettingsScreen { settings, saver, ..self }, start)
    }

    pub fn pause_switched(self, state: bool) -> (r: (SettingsScreen, bool))
        ensures
            r.0 == (SettingsScreen {
                resume_sensitive: state,
                ..self.changed(PlaybackSettings { pause_on_headphone_unplug: state, ..self.settings })
            }),
            r.1 == !self.saver.running,
    {
        let settings = PlaybackSettings { pause_on_headphone_unplug: state, ..self.settings };
        let (next, start) = self.persist(settings);
        (SettingsScreen { resume_sensitive: state, ..next }, start)
    }

    pub fn resume_switched(self, state: bool) -> (r: (SettingsScreen, bool))
        ensures
            r.0 == self.changed(PlaybackSettings { resume_on_headphone_replug: state, ..self.settings }),
            r.1 == !self.saver.running,
    {
        let settings = PlaybackSettings { resume_on_headphone_replug: state, ..self.settings };
        self.persist(settings)
    }

    pub fn wifi_only_switched(self, state: bool) -> (r: (SettingsScreen, bool))
        ensures
            r.0 == self.changed(PlaybackSettings { wifi_only_downloads: state, ..self.settings }),
            r.1 == !self.saver.running,
    {
        let settings = PlaybackSettings { wifi_only_downloads: state, ..self.settings };
        self.persist(settings)
    }

    pub fn speed_picked(self, row: u32) -> (r: (SettingsScreen, bool))
        requires
            row < self.presets.len(),
        ensures
            r.0 == (SettingsScreen {
                speed_row: row,
                ..self.changed(PlaybackSettings { default_speed: self.presets[row as int], ..self.settings })
            }),
            r.1 == !self.saver.running,
    {
        let settings = PlaybackSettings { default_speed: self.presets[row as usize], ..self.settings };
        let (next, start) = self.persist(settings);
        (SettingsScreen { speed_row: row, ..next }, start)
    }

    pub fn skip_back_picked(self, row: u32) -> (r: (SettingsScreen, bool))
        requires
            row < skip_choices_spec().len(),
        ensures
            r.0 == (SettingsScreen {
                skip_back_row: row,
                ..self.changed(
                    PlaybackSettings { skip_back_seconds: skip_choices_spec()[row as int], ..self.settings },
                )
            }),
            r.1 == !self.saver.running,
    {
        let choices = skip_choices();
        let settings = PlaybackSettings { skip_back_seconds: choices[row as usize], ..self.settings };
        let (next, start) = self.persist(settings);
        (SettingsScreen { skip_back_row: row, ..next }, start)
    }

    pub fn skip_forward_picked(self, row: u32) -> (r: (SettingsScreen, bool))
        requires
            row < skip_choices_spec().len(),
        ensures
            r.0 == (SettingsScreen {
                skip_forward_row: row,
                ..self.changed(
                    PlaybackSettings { skip_forward_seconds: skip_choices_spec()[row as int], ..self.settings },
                )
            }),
            r.1 == !self.saver.running,
    {
        let choices = skip_choices();
        let settings = PlaybackSettings { skip_forward_seconds: choices[row as usize], ..self.settings };
        let (next, start) = self.persist(settings);
        (SettingsScreen { skip_forward_row: row, ..next }, start)
    }

    /// The theme is stored on its own.
    pub fn theme_picked(self, row: u32) -> (r: (SettingsScreen, Theme))
        ensures
            r.1 == theme_at(row),
            r.0 == (SettingsScreen { theme: r.1, ..self }),
    {
        let theme = theme_from_index(row);
        (SettingsScreen { theme, ..self }, theme)
    }

    /// The writer asks for what to store next; with nothing left it stops.
    pub fn writer_asks(self) -> (r: (SettingsScreen, Option<PlaybackSettings>))
        ensures
            r.0 == (SettingsScreen { saver: self.saver.taken(), ..self }),
            r.1 == self.saver.pending,
    {
        let (saver, next) = self.saver.take_pending();
        (SettingsScreen { saver, ..self }, next)
    }
}

/// The host of an address is what stands between the scheme and the path, with
/// its port; without a scheme it is what stands before the path.
pub proof fn law_host_of_address(scheme: Seq<char>, host: Seq<char>, path: Seq<char>)
    requires
        !scheme.contains(':'),
        !host.contains('/'),
        path.len() > 0 ==> path[0] == '/',
    ensures
        host_text(scheme + "://"@ + host + path) == host,
        path.len() == 0 ==> host_text(host + path) == host,
        !host.contains(':') && !path.contains(':') ==> host_text(host + path) == host,
{
    reveal_strlit("://");
    let url = scheme + "://"@ + host + path;
    lemma_scheme(scheme, host + path);
    assert(url =~= scheme + "://"@ + (host + path));
    let rest = host + path;
    assert forall|i: int| 0 <= i < host.len() implies rest[i] != '/' by {
        if rest[i] == '/' {
            assert(host[i] == '/');
            assert(host.contains('/'));
        }
    }
    lemma_before_first(rest, '/', host.len() as int);
    assert(rest.take(host.len() as int) =~= host);
    if path.len() == 0 {
        assert(rest =~= host);
        lemma_no_scheme(host);
    }
    if !host.contains(':') && !path.contains(':') {
        assert(!rest.contains(':')) by {
            if rest.contains(':') {
                let i = choose|i: int| 0 <= i < rest.len() && rest[i] == ':';
                if i < host.len() {
                    assert(host[i] == ':');
                } else {
                    assert(path[i - host.len()] == ':');
                }
            }
        }
        lemma_no_colon(rest);
    }
}

proof fn lemma_no_colon(s: Seq<char>)
    requires
        !s.contains(':'),
    ensures
        after_scheme(s) is None,
    decreases s.len(),
{
    if s.len() >= 3 {
        assert(s.contains(s[0]));
        let t = s.skip(1);
        if t.contains(':') {
            let i = choose|i: int| 0 <= i < t.len() && t[i] == ':';
            assert(s[i + 1] == ':');
        }
        lemma_no_colon(t);
    }
}

proof fn lemma_scheme(scheme: Seq<char>, rest: Seq<char>)
    requires
        !scheme.contains(':'),
    ensures
        after_scheme(scheme + "://"@ + rest) == Some(rest),
    decreases scheme.len(),
{
    reveal_strlit("://");
    let s = scheme + "://"@ + rest;
    if scheme.len() == 0 {
        assert(s[0] == ':' && s[1] == '/' && s[2] == '/');
        assert(s.skip(3) =~= rest);
    } else {
        assert(s[0] == scheme[0]);
        assert(scheme.contains(scheme[0]));
        let shorter = scheme.skip(1);
        assert(!shorter.contains(':')) by {
            if shorter.contains(':') {
                let i = choose|i: int| 0 <= i < shorter.len() && shorter[i] == ':';
                assert(scheme[i + 1] == ':');
            }
        }
        lemma_scheme(shorter, rest);
        assert(s.skip(1) =~= shorter + "://"@ + rest);
    }
}

/// The row of a server names its host and its first account; it says so where one
/// of its accounts is active, and only then there is nothing to switch to.
pub proof fn law_server_row(entry: ServerEntry)
    ensures
        ({
            let row = row_of(entry);
            let active = exists|i: int| 0 <= i < entry.accounts.len() && (#[trigger] entry.accounts[i]).is_active;
            &&& row.title == host_text(entry.server.url@)
            &&& row.can_sign_out <==> entry.accounts.len() > 0
            &&& row.can_switch <==> row.can_sign_out && !active
            &&& row.can_sign_out ==> row.subtitle.take(entry.accounts[0].username@.len() as int)
                == entry.accounts[0].username@
            &&& row.can_switch ==> row.subtitle == entry.accounts[0].username@
            &&& active ==> row.subtitle == entry.accounts[0].username@ + " · active"@
            &&& !row.can_sign_out ==> row.subtitle == "No signed-in account"@
        }),
{
    let row = row_of(entry);
    if entry.accounts.len() > 0 {
        let name = entry.accounts[0].username@;
        assert((name + " · active"@).take(name.len() as int) =~= name);
        assert(name.take(name.len() as int) =~= name);
    }
}

/// The choices of a skip rise from five seconds to a minute, and those that skips
/// start with are among them.
pub proof fn law_skip_choices()
    ensures
        ({
            let c = skip_choices_spec();
            &&& c.len() == 7 && c[0] == 5 && c[6] == 60
            &&& forall|i: int, j: int| 0 <= i < j < c.len() ==> c[i] < c[j]
            &&& forall|i: int| 0 <= i < c.len() ==> c[i] % 5 == 0
            &&& c.contains(15) && c.contains(30)
        }),
{
    let c = skip_choices_spec();
    assert(c[2] == 15 && c[4] == 30);
}

/// A speed is its own preset; presets that are off it by a thousandth are not.
pub proof fn law_is_preset(preset: Double, speed: Double)
    requires
        !preset@.nan && !preset@.is_infinite(),
        !speed@.nan && !speed@.is_infinite(),
    ensures
        preset@.value() == speed@.value() ==> is_preset(preset@, speed@),
        preset@.mag <= 1024 * one() && speed@.mag <= one() * 512 && 1000 * apart(preset@.value(), speed@.value())
            >= one() ==> !is_preset(preset@, speed@),
{
    lemma_pow2_pos(1022);
    lemma_pow2_strictly_increases(1022, 2098);
    lemma_pow2_pos(1074);
    let d = preset@.plus(speed@.negated());
    law_plus(preset@, speed@.negated());
    if 1000 * apart(preset@.value(), speed@.value()) >= one() {
        lemma2_to64();
        lemma_pow2_adds(52, 1022);
        lemma_pow2_adds(32, 20);
        lemma_pow2_adds(32, 21);
        lemma_pow2_strictly_increases(52, 1022);
        let (o, e, m) = (one() as int, pow2(1022) as int, pow2(53) as int);
        let size = apart(preset@.value(), speed@.value());
        let got = apart(d.value(), 0);
        if !d.is_infinite() {
            let gap = apart(d.value(), preset@.value() - speed@.value());
            assert(m * (size - got) <= m * gap) by (nonlinear_arith)
                requires
                    size - got <= gap,
                    m > 0,
            ;
            assert(got > e) by (nonlinear_arith)
                requires
                    m * (size - got) <= size + e,
                    1000 * size >= o,
                    o == 0x10_0000_0000_0000 * e,
                    m == 0x20_0000_0000_0000,
                    e > 0,
            ;
        }
    }
}

/// The row of a speed is the first whose preset is the speed, where there is one; else
/// one whose preset is the default speed, where there is one; else the first.
pub proof fn law_speed_row(presets: Seq<Double>, speed: Num, default_speed: Num, r: int)
    requires
        speed_row(presets, speed, default_speed, r),
    ensures
        (exists|k: int| 0 <= k < presets.len() && is_preset((#[trigger] presets[k])@, speed)) ==> 0 <= r < presets.len()
            && is_preset(presets[r]@, speed) && forall|k: int| 0 <= k < r ==> !is_preset((#[trigger] presets[k])@, speed),
        !(exists|k: int| 0 <= k < presets.len() && is_preset((#[trigger] presets[k])@, speed)) && (exists|k: int|
            0 <= k < presets.len() && is_preset((#[trigger] presets[k])@, default_speed)) ==> 0 <= r < presets.len()
            && is_preset(presets[r]@, default_speed),
        (forall|k: int|
            0 <= k < presets.len() ==> !is_preset((#[trigger] presets[k])@, speed) && !is_preset(
                presets[k]@,
                default_speed,
            )) ==> r == 0,
{
    if 0 <= r < presets.len() {
        assert(is_preset(presets[r]@, speed) || is_preset(presets[r]@, default_speed) || r == 0);
    }
}

/// Only the playback settings that are changed change; the change waits to be
/// stored, and a writer runs.
pub proof fn law_changed(screen: SettingsScreen, settings: PlaybackSettings)
    ensures
        ({
            let after = screen.changed(settings);
            &&& after.settings == settings
            &&& after.saver.pending == Some(settings) && after.saver.running
            &&& after.theme == screen.theme && after.presets == screen.presets
        }),
{
}


/// The first active account is active, there is one at most, and no active account
/// comes before it: neither on an earlier server nor earlier on its own.
pub proof fn law_first_active(servers: Seq<ServerEntry>, s: int, a: int, t: int, b: int)
    requires
        first_active(servers, s, a),
        0 <= t < servers.len(),
        0 <= b < servers[t].accounts.len(),
    ensures
        servers[s].accounts[a].is_active,
        servers[t].accounts[b].is_active ==> s < t || (s == t && a <= b),
        first_active(servers, t, b) ==> s == t && a == b,
{
    if servers[t].accounts[b].is_active {
        assert(has_active(servers[t].accounts@));
    }
    assert(has_active(servers[s].accounts@)) by {
        assert(servers[s].accounts[a].is_active);
    }
}

} // verus!
