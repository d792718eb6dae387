//! What the screens that sync have in common: the outcome of a sync, the banner
//! that reports it, and the guard of the manual triggers.
use vstd::prelude::*;

verus! {

/// How a sync ended.
#[derive(Clone, Debug)]
pub enum SyncOutcome {
    Synced,
    /// The server no longer accepts the session; with the text of the error.
    Unauthorized(String),
    /// Anything else went wrong; with the text of the error.
    Failed(String),
}

impl SyncOutcome {
    /// Whether the sync succeeded.
    pub fn succeeded(&self) -> (r: bool)
        ensures
            r == (self is Synced),
    {
        match self {
            SyncOutcome::Synced => true,
            _ => false,
        }
    }
}

/// The banner over content that is shown although the sync failed.
#[derive(Clone, Debug)]
pub struct Banner {
    pub revealed: bool,
    pub title: String,
    pub action: Option<String>,
    pub details: Option<String>,
}

/// The banner over content that is shown although the sync failed.
pub struct BannerView {
    pub revealed: bool,
    pub title: Seq<char>,
    pub action: Option<Seq<char>>,
    pub details: Option<Seq<char>>,
}

/// The view of an optional text.
pub open spec fn text_view(s: Option<String>) -> Option<Seq<char>> {
    match s {
        Some(s) => Some(s@),
        None => None,
    }
}

/// A copy of an optional text.
pub(crate) fn copy_text(s: &Option<String>) -> (r: Option<String>)
    ensures
        text_view(r) == text_view(*s),
{
    match s {
        Some(s) => Some(s.clone()),
        None => None,
    }
}

impl View for Banner {
    type V = BannerView;

    open spec fn view(&self) -> BannerView {
        BannerView {
            revealed: self.revealed,
            title: self.title@,
            action: text_view(self.action),
            details: text_view(self.details),
        }
    }
}

/// A banner that has reported nothing yet.
pub open spec fn no_banner() -> BannerView {
    BannerView { revealed: false, title: ""@, action: None, details: None }
}

/// The banner after a sync, over content from the cache. A failure of the
/// session offers to log in again; any other failure does not. The text of the
/// error is kept as details.
pub open spec fn banner_after(banner: BannerView, outcome: SyncOutcome) -> BannerView {
    match outcome {
        SyncOutcome::Synced => BannerView { revealed: false, ..banner },
        SyncOutcome::Unauthorized(error) => BannerView {
            revealed: true,
            title: "Session expired — showing what's cached."@,
            action: Some("Log in again"@),
            details: Some(error@),
        },
        SyncOutcome::Failed(error) => BannerView {
            revealed: true,
            title: "Couldn't sync — showing what's cached."@,
            action: None,
            details: Some(error@),
        },
    }
}

impl Banner {
    /// A banner that is not revealed.
    pub fn new() -> (r: Banner)
        ensures
            r@ == no_banner(),
    {
        Banner { revealed: false, title: String::from_str(""), action: None, details: None }
    }

    /// Takes the banner away.
    pub fn conceal(&mut self)
        ensures
            final(self)@ == (BannerView { revealed: false, ..old(self)@ }),
    {
        self.revealed = false;
    }

    /// Reports how a sync ended.
    pub fn report(&mut self, outcome: &SyncOutcome)
        ensures
            final(self)@ == banner_after(old(self)@, *outcome),
    {
        match outcome {
            SyncOutcome::Synced => {
                self.conceal();
            },
            SyncOutcome::Unauthorized(error) => {
                self.title = String::from_str("Session expired — showing what's cached.");
                self.action = Some(String::from_str("Log in again"));
                self.details = Some(error.clone());
                self.revealed = true;
            },
            SyncOutcome::Failed(error) => {
                self.title = String::from_str("Couldn't sync — showing what's cached.");
                self.action = None;
                self.details = Some(error.clone());
                self.revealed = true;
            },
        }
    }
}

/// The guard that the manual sync triggers of a screen share.
#[derive(Clone, Copy, Debug, PartialEq, Eq, Structural)]
pub struct ManualSync {
    pub in_flight: bool,
}

impl ManualSync {
    /// A guard with nothing in flight.
    pub fn new() -> (r: ManualSync)
        ensures
            !r.in_flight,
    {
        ManualSync { in_flight: false }
    }

    /// Claims the guard; refused while a manual sync is in flight.
    pub fn claim(&mut self) -> (granted: bool)
        ensures
            granted == !old(self).in_flight,
            final(self).in_flight,
    {
        let granted: bool = !self.in_flight;
        self.in_flight = true;
        granted
    }

    /// Releases the guard; the text to announce.
    pub fn finish(&mut self, succeeded: bool) -> (toast: String)
        ensures
            !final(self).in_flight,
            toast@ == if succeeded {
                "Sync complete"@
            } else {
                "Sync failed"@
            },
    {
        self.in_flight = false;
        if succeeded {
            String::from_str("Sync complete")
        } else {
            String::from_str("Sync failed")
        }
    }
}

/// How far a sync cycle has come.
#[derive(Clone, Debug)]
pub enum Stage {
    /// What is stored locally is being read.
    Reading,
    /// The server is being asked.
    Syncing,
    /// The sync has ended so, and what is stored is being read again.
    Rereading(SyncOutcome),
    /// Covers are being fetched for what is shown.
    Fetching(SyncOutcome),
    /// What is stored is being read once more, now with the covers.
    Covering(SyncOutcome),
    Ended,
}

/// A sync cycle of a screen.
#[derive(Clone, Debug)]
pub struct Cycle {
    /// Whether the user asked for it.
    pub manual: bool,
    pub stage: Stage,
}

/// What a cycle hears.
#[derive(Clone, Debug)]
pub enum CycleEvent<D> {
    /// What is stored locally has been read; `None` where that failed.
    Read(Option<D>),
    Synced(SyncOutcome),
    Fetched,
}

/// What a cycle asks for next.
#[derive(Clone, Debug)]
pub enum CycleAction {
    /// Read what is stored locally.
    Read,
    Sync,
    /// Fetch the covers of the items with these ids.
    Fetch(Vec<String>),
    /// Nothing more: the cycle is over. A manual one has this to announce.
    End(Option<String>),
    /// Nothing: the cycle did not wait for what it heard.
    Nothing,
}

/// The stage after an event; `covers` says whether there are any to fetch. What
/// the cycle does not wait for leaves the stage as it is.
pub open spec fn stage_after<D>(stage: Stage, event: CycleEvent<D>, covers: bool) -> Stage {
    match (stage, event) {
        (Stage::Reading, CycleEvent::Read(_)) => Stage::Syncing,
        (Stage::Syncing, CycleEvent::Synced(outcome)) => Stage::Rereading(outcome),
        (Stage::Rereading(outcome), CycleEvent::Read(_)) => if covers {
            Stage::Fetching(outcome)
        } else {
            Stage::Ended
        },
        (Stage::Fetching(outcome), CycleEvent::Fetched) => Stage::Covering(outcome),
        (Stage::Covering(_), CycleEvent::Read(_)) => Stage::Ended,
        (stage, _) => stage,
    }
}

/// Whether a cycle waits for an event.
pub open spec fn awaited<D>(stage: Stage, event: CycleEvent<D>) -> bool {
    match stage {
        Stage::Reading | Stage::Rereading(_) | Stage::Covering(_) => event is Read,
        Stage::Syncing => event is Synced,
        Stage::Fetching(_) => event is Fetched,
        Stage::Ended => false,
    }
}

/// What the end of a cycle announces: an automatic one nothing.
pub open spec fn announcement(manual: bool, outcome: SyncOutcome) -> Option<Seq<char>> {
    if !manual {
        None
    } else if outcome is Synced {
        Some("Sync complete"@)
    } else {
        Some("Sync failed"@)
    }
}

impl ManualSync {
    /// The guard after a cycle has ended: a manual one releases it.
    pub open spec fn released(self, manual: bool) -> ManualSync {
        ManualSync { in_flight: self.in_flight && !manual }
    }

    /// Ends a cycle: releases the guard of a manual one, which has something to
    /// announce.
    pub fn end(&mut self, manual: bool, outcome: &SyncOutcome) -> (toast: Option<String>)
        ensures
            *final(self) == old(self).released(manual),
            text_view(toast) == announcement(manual, *outcome),
    {
        if manual {
            Some(self.finish(outcome.succeeded()))
        } else {
            None
        }
    }
}

/// One step of a cycle, and the screen around it.
pub struct CycleStep<S, D> {
    pub before: S,
    pub event: CycleEvent<D>,
    pub after: S,
    /// The cycle after the step.
    pub cycle: Cycle,
    pub action: CycleAction,
}

/// The cycle after its first `n` steps.
pub open spec fn cycle_at<S, D>(start: Cycle, steps: Seq<CycleStep<S, D>>, n: int) -> Cycle {
    if n <= 0 {
        start
    } else {
        steps[n - 1].cycle
    }
}

/// Whether the cycle goes from stage to stage, and ends with the step that
/// brings it to its end.
pub open spec fn staged<S, D>(start: Cycle, steps: Seq<CycleStep<S, D>>) -> bool {
    forall|i: int|
        0 <= i < steps.len() ==> {
            let at = cycle_at(start, steps, i);
            let step = #[trigger] steps[i];
            &&& step.cycle.manual == at.manual
            &&& step.cycle.stage == stage_after(at.stage, step.event, true) || step.cycle.stage == stage_after(
                at.stage,
                step.event,
                false,
            )
            &&& step.action is End <==> at.stage !is Ended && step.cycle.stage is Ended
        }
}

/// Whether the sync of the cycle ended so, before its step `n`.
pub open spec fn synced_so<S, D>(start: Cycle, steps: Seq<CycleStep<S, D>>, n: int, outcome: SyncOutcome) -> bool {
    exists|j: int|
        0 <= j < n && cycle_at(start, steps, j).stage is Syncing && (#[trigger] steps[j]).event
            == CycleEvent::<D>::Synced(outcome)
}

/// The outcome that a stage carries along.
pub open spec fn carried(stage: Stage) -> Option<SyncOutcome> {
    match stage {
        Stage::Rereading(outcome) => Some(outcome),
        Stage::Fetching(outcome) => Some(outcome),
        Stage::Covering(outcome) => Some(outcome),
        _ => None,
    }
}

/// The outcome that a cycle carries along is that of its sync; it stays what it
/// is, manual or automatic; and it has ended exactly if one of its steps ended it.
pub(crate) proof fn lemma_cycle_at<S, D>(manual: bool, steps: Seq<CycleStep<S, D>>, n: int)
    requires
        staged(Cycle { manual, stage: Stage::Reading }, steps),
        0 <= n <= steps.len(),
    ensures
        ({
            let start = Cycle { manual, stage: Stage::Reading };
            let at = cycle_at(start, steps, n);
            &&& at.manual == manual
            &&& carried(at.stage) matches Some(outcome) ==> synced_so(start, steps, n, outcome)
            &&& at.stage is Ended <==> exists|i: int| 0 <= i < n && (#[trigger] steps[i]).action is End
        }),
    decreases n,
{
    let start = Cycle { manual, stage: Stage::Reading };
    if n > 0 {
        lemma_cycle_at(manual, steps, n - 1);
        let before = cycle_at(start, steps, n - 1);
        let step = steps[n - 1];
        let at = cycle_at(start, steps, n);
        assert(at == step.cycle);
        if let Some(outcome) = carried(at.stage) {
            if before.stage is Syncing {
                assert(steps[n - 1].event == CycleEvent::<D>::Synced(outcome));
            } else {
                assert(carried(before.stage) == Some(outcome));
                let j = choose|j: int|
                    0 <= j < n - 1 && cycle_at(start, steps, j).stage is Syncing && (#[trigger] steps[j]).event
                        == CycleEvent::<D>::Synced(outcome);
                assert(steps[j].event == CycleEvent::<D>::Synced(outcome));
            }
        }
        if before.stage is Ended {
            let i = choose|i: int| 0 <= i < n - 1 && (#[trigger] steps[i]).action is End;
            assert(steps[i].action is End);
        } else if at.stage is Ended {
            assert(steps[n - 1].action is End);
        }
    }
}

/// No cycle ends twice.
pub(crate) proof fn lemma_ends_once<S, D>(manual: bool, steps: Seq<CycleStep<S, D>>, i: int, j: int)
    requires
        staged(Cycle { manual, stage: Stage::Reading }, steps),
        0 <= i < j < steps.len(),
        steps[i].action is End,
    ensures
        steps[j].action !is End,
{
    lemma_cycle_at(manual, steps, j);
}

/// How many events a cycle waits for at most.
pub open spec fn events_left(stage: Stage) -> nat {
    match stage {
        Stage::Reading => 5,
        Stage::Syncing => 4,
        Stage::Rereading(_) => 3,
        Stage::Fetching(_) => 2,
        Stage::Covering(_) => 1,
        Stage::Ended => 0,
    }
}

/// A cycle comes to its end: it hears what it waits for five times at most, and
/// until it has ended there is something that it waits for.
pub proof fn law_cycle_bounded<S, D>(manual: bool, steps: Seq<CycleStep<S, D>>)
    requires
        staged(Cycle { manual, stage: Stage::Reading }, steps),
        forall|i: int|
            0 <= i < steps.len() ==> awaited(
                cycle_at(Cycle { manual, stage: Stage::Reading }, steps, i).stage,
                (#[trigger] steps[i]).event,
            ),
    ensures
        ({
            let at = cycle_at(Cycle { manual, stage: Stage::Reading }, steps, steps.len() as int);
            &&& steps.len() + events_left(at.stage) <= 5
            &&& at.stage !is Ended ==> exists|event: CycleEvent<D>| awaited(at.stage, event)
        }),
    decreases steps.len(),
{
    let start = Cycle { manual, stage: Stage::Reading };
    let at = cycle_at(start, steps, steps.len() as int);
    if steps.len() > 0 {
        let init = steps.drop_last();
        assert forall|i: int| 0 <= i < init.len() implies (#[trigger] init[i]) == steps[i] && cycle_at(start, init, i)
            == cycle_at(start, steps, i) by {
            if i > 0 {
                assert(init[i - 1] == steps[i - 1]);
            }
        }
        law_cycle_bounded(manual, init);
        let last = steps.len() - 1;
        assert(cycle_at(start, init, last) == cycle_at(start, steps, last)) by {
            if last > 0 {
                assert(init[last - 1] == steps[last - 1]);
            }
        }
        assert(awaited(cycle_at(start, steps, last).stage, steps[last].event));
        assert(at == steps[last].cycle);
    }
    assert(awaited(at.stage, CycleEvent::<D>::Read(None)) || awaited(at.stage, CycleEvent::<D>::Fetched) || awaited(
        at.stage,
        CycleEvent::<D>::Synced(SyncOutcome::Synced),
    ) || at.stage is Ended);
}

/// A failed sync is reported, with the text of its error, and only a dead session
/// offers to log in again; the two kinds of failure are told apart. A sync that
/// succeeds takes the banner away, however the one before it ended.
pub proof fn law_banner(banner: BannerView, other: BannerView, outcome: SyncOutcome, error: String)
    ensures
        banner_after(banner, outcome).revealed <==> outcome !is Synced,
        banner_after(banner, SyncOutcome::Failed(error)).details == Some(error@),
        banner_after(banner, SyncOutcome::Unauthorized(error)).details == Some(error@),
        outcome !is Synced ==> (banner_after(banner, outcome).action is Some <==> outcome is Unauthorized),
        outcome !is Synced ==> banner_after(banner, outcome) == banner_after(other, outcome),
        outcome is Synced ==> banner_after(banner, outcome) == (BannerView { revealed: false, ..banner }),
        banner_after(banner, SyncOutcome::Failed(error)).title != banner_after(
            banner,
            SyncOutcome::Unauthorized(error),
        ).title,
{
    reveal_strlit("Session expired — showing what's cached.");
    reveal_strlit("Couldn't sync — showing what's cached.");
    assert("Session expired — showing what's cached."@[0] == 'S');
    assert("Couldn't sync — showing what's cached."@[0] == 'C');
}

/// Only what the user asked for is announced, and success is told from failure.
pub proof fn law_announced(manual: bool, good: SyncOutcome, bad: SyncOutcome)
    requires
        good is Synced,
        bad !is Synced,
    ensures
        announcement(manual, good) is Some <==> manual,
        announcement(manual, bad) is Some <==> manual,
        manual ==> announcement(manual, good) != announcement(manual, bad),
{
    reveal_strlit("Sync complete");
    reveal_strlit("Sync failed");
    assert("Sync complete"@.len() != "Sync failed"@.len());
}

/// A manual cycle lets the next one be asked for; an automatic one leaves that to
/// the manual one in flight.
pub proof fn law_released(guard: ManualSync, manual: bool)
    ensures
        manual ==> !guard.released(manual).in_flight,
        !manual ==> guard.released(manual) == guard,
{
}

/// A cycle moves exactly on what it waits for, one kind of event at a time, and
/// carries the outcome of its sync to its end.
pub proof fn law_stages<D>(stage: Stage, event: CycleEvent<D>, other: CycleEvent<D>, covers: bool)
    ensures
        ({
            let next = stage_after(stage, event, covers);
            &&& awaited(stage, event) <==> next != stage
            &&& awaited(stage, event) && awaited(stage, other) ==> (event is Read <==> other is Read) && (
            event is Synced <==> other is Synced)
            &&& awaited(stage, event) ==> events_left(next) < events_left(stage)
            &&& next is Ended <==> stage is Ended || (awaited(stage, event) && (stage is Covering || (stage is Rereading
                && !covers)))
            &&& carried(stage) is Some && next !is Ended ==> carried(next) == carried(stage)
            &&& carried(stage) is None && next !is Ended ==> match event {
                CycleEvent::Synced(outcome) => stage is Syncing ==> carried(next) == Some(outcome),
                _ => carried(next) is None,
            }
        }),
{
}

} // verus!
