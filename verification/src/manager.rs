//! The member manager: the current members, the statuses of the last
//! completed health check, and the recurring health-check task.
//!
//! The task is the only writer of both. Whoever lists the members reads the
//! statuses and changes nothing.
//!
//! The task itself only decides. Whoever drives it waits for the period to
//! pass, reads the registry and probes the sites, and reports each outcome as
//! an event; the task answers with what to do next. A new mapping of statuses
//! is published in one piece, when every probe of a cycle has reported.

use vstd::prelude::*;
use crate::config::{members_of, Member, MemberView};
use crate::counting::{count_in, lemma_count_in_all, lemma_count_in_bound, lemma_count_in_update};
use crate::health::{Health, Verdict};
use crate::health_map::HealthMap;

verus! {

/// The number of probes that may be under way at once.
pub const FAN_OUT: usize = 8;

/// Where the health-check task stands.
#[derive(Clone, Copy, Debug)]
pub enum Phase {
    /// Waiting for the period to pass.
    Idle,
    /// Waiting for the registry to be read.
    Loading,
    /// Waiting for probes to report.
    Probing,
    /// Cancelled; nothing is awaited any more.
    Stopped,
}

/// What happened outside the task.
pub enum TaskEvent {
    /// The period has passed.
    Tick,
    /// The registry was read, and holds these members.
    RegistryRead(Vec<Member>),
    /// The registry could not be read.
    RegistryFailed,
    /// The probe of target `target` has reported.
    ProbeDone { target: usize, health: Health },
}

/// One probe to start.
pub struct ProbeRequest {
    /// The number under which the outcome is to be reported.
    pub target: usize,
    pub slug: String,
    pub url: String,
}

/// What the driver of the task is to do next.
pub enum TaskAction {
    /// Nothing; report the next event when it comes.
    Wait,
    /// Read the registry, and report what came of it. `first` is set where
    /// this opens the first health check.
    ReadRegistry { first: bool },
    /// Start these probes, and report each outcome as it comes.
    StartProbes(Vec<ProbeRequest>),
    /// The cycle is complete and its statuses are published; wait for the
    /// period to pass. `first` is set where this was the first health check.
    Published { first: bool },
}

/// Mathematical model of a [`TaskEvent`].
pub enum EventView {
    Tick,
    RegistryRead(Seq<MemberView>),
    RegistryFailed,
    ProbeDone { target: int, health: Verdict },
}

/// Mathematical model of a [`ProbeRequest`].
pub struct RequestView {
    pub target: int,
    pub slug: Seq<char>,
    pub url: Seq<char>,
}

/// Mathematical model of a [`TaskAction`].
pub enum ActionView {
    Wait,
    ReadRegistry { first: bool },
    StartProbes(Seq<RequestView>),
    Published { first: bool },
}

impl View for TaskEvent {
    type V = EventView;

    open spec fn view(&self) -> EventView {
        match self {
            TaskEvent::Tick => EventView::Tick,
            TaskEvent::RegistryRead(members) => EventView::RegistryRead(members_of(members@)),
            TaskEvent::RegistryFailed => EventView::RegistryFailed,
            TaskEvent::ProbeDone { target, health } => EventView::ProbeDone {
                target: *target as int,
                health: health@,
            },
        }
    }
}

impl View for ProbeRequest {
    type V = RequestView;

    open spec fn view(&self) -> RequestView {
        RequestView { target: self.target as int, slug: self.slug@, url: self.url@ }
    }
}

impl View for TaskAction {
    type V = ActionView;

    open spec fn view(&self) -> ActionView {
        match self {
            TaskAction::Wait => ActionView::Wait,
            TaskAction::ReadRegistry { first } => ActionView::ReadRegistry { first: *first },
            TaskAction::StartProbes(requests) => ActionView::StartProbes(
                requests@.map_values(|request: ProbeRequest| request@),
            ),
            TaskAction::Published { first } => ActionView::Published { first: *first },
        }
    }
}

/// Mathematical model of a [`MemberManager`].
pub struct ManagerView {
    /// The members, as the health-check task last read the registry.
    pub members: Seq<MemberView>,
    /// The statuses that the last completed health check found.
    pub health: Map<Seq<char>, Verdict>,
    pub phase: Phase,
    /// No health check has completed yet.
    pub first_cycle: bool,
    /// Slug and address of each member that the running cycle probes.
    pub targets: Seq<(Seq<char>, Seq<char>)>,
    /// Which targets have reported.
    pub done: Seq<bool>,
    /// The targets before this one have been started.
    pub next: int,
    /// The statuses that the running cycle has found so far.
    pub collected: Map<Seq<char>, Verdict>,
}

/// The flag is set.
pub open spec fn is_set() -> spec_fn(bool) -> bool {
    |flag: bool| flag
}

/// The number of probes that are under way.
pub open spec fn in_flight(state: ManagerView) -> int {
    state.next - count_in(state.done, is_set())
}

/// Some target of `slug` has reported.
pub open spec fn has_reported(state: ManagerView, slug: Seq<char>) -> bool {
    exists|i: int|
        0 <= i < state.targets.len() && #[trigger] state.done[i] && state.targets[i].0 == slug
}

/// Some target is `slug`.
pub open spec fn is_target(targets: Seq<(Seq<char>, Seq<char>)>, slug: Seq<char>) -> bool {
    exists|i: int| 0 <= i < targets.len() && (#[trigger] targets[i]).0 == slug
}

/// What holds of the manager at all times.
pub open spec fn consistent(state: ManagerView) -> bool {
    &&& state.done.len() == state.targets.len()
    &&& 0 <= state.next <= state.targets.len()
    &&& forall|i: int| state.next <= i < state.done.len() ==> !#[trigger] state.done[i]
    &&& 0 <= in_flight(state) <= FAN_OUT
    &&& state.first_cycle ==> state.health == Map::<Seq<char>, Verdict>::empty()
    &&& forall|slug: Seq<char>| #[trigger]
        state.collected.contains_key(slug) <==> has_reported(state, slug)
    &&& state.phase is Probing ==> count_in(state.done, is_set()) < state.targets.len()
    &&& !(state.phase is Probing) ==> state.targets.len() == 0
}

/// The manager before anything has happened: no members, no statuses, the
/// task waiting for its first period to pass.
pub open spec fn initial() -> ManagerView {
    ManagerView {
        members: Seq::empty(),
        health: Map::empty(),
        phase: Phase::Idle,
        first_cycle: true,
        targets: Seq::empty(),
        done: Seq::empty(),
        next: 0,
        collected: Map::empty(),
    }
}

/// Slug and address of each member.
pub open spec fn targets_of(members: Seq<MemberView>) -> Seq<(Seq<char>, Seq<char>)> {
    members.map_values(|member: MemberView| (member.slug, member.url))
}

/// The requests for the targets `from..to`.
pub open spec fn requests(targets: Seq<(Seq<char>, Seq<char>)>, from: int, to: int) -> Seq<
    RequestView,
> {
    Seq::new(
        (to - from) as nat,
        |i: int|
            RequestView { target: from + i, slug: targets[from + i].0, url: targets[from + i].1 },
    )
}

/// The state with no cycle running.
pub open spec fn at_rest(state: ManagerView, phase: Phase) -> ManagerView {
    ManagerView {
        phase,
        targets: Seq::empty(),
        done: Seq::empty(),
        next: 0,
        collected: Map::empty(),
        ..state
    }
}

/// The registry was read: its members replace the current ones and each of
/// them is a target of the cycle, the first [`FAN_OUT`] of which are started.
/// A registry without members completes the cycle at once.
pub open spec fn on_registry(state: ManagerView, members: Seq<MemberView>) -> (
    ManagerView,
    ActionView,
) {
    let targets = targets_of(members);
    if targets.len() == 0 {
        (
            ManagerView {
                members,
                health: Map::empty(),
                first_cycle: false,
                ..at_rest(state, Phase::Idle)
            },
            ActionView::Published { first: state.first_cycle },
        )
    } else {
        let started = if targets.len() < FAN_OUT {
            targets.len() as int
        } else {
            FAN_OUT as int
        };
        (
            ManagerView {
                members,
                phase: Phase::Probing,
                targets,
                done: Seq::new(targets.len(), |i: int| false),
                next: started,
                collected: Map::empty(),
                ..state
            },
            ActionView::StartProbes(requests(targets, 0, started)),
        )
    }
}

/// A probe has reported. The report counts if the target is under way; its
/// status is then collected under the target's slug. Where targets are left,
/// the next one is started; where all have reported, the collected statuses
/// are published in place of the earlier ones.
pub open spec fn on_probe_done(state: ManagerView, target: int, health: Verdict) -> (
    ManagerView,
    ActionView,
) {
    if 0 <= target < state.next && !state.done[target] {
        let collected = state.collected.insert(state.targets[target].0, health);
        let done = state.done.update(target, true);
        if state.next < state.targets.len() {
            (
                ManagerView { done, collected, next: state.next + 1, ..state },
                ActionView::StartProbes(requests(state.targets, state.next, state.next + 1)),
            )
        } else if forall|i: int| 0 <= i < done.len() ==> #[trigger] done[i] {
            (
                ManagerView {
                    health: collected,
                    first_cycle: false,
                    ..at_rest(state, Phase::Idle)
                },
                ActionView::Published { first: state.first_cycle },
            )
        } else {
            (ManagerView { done, collected, ..state }, ActionView::Wait)
        }
    } else {
        (state, ActionView::Wait)
    }
}

/// The next state of the manager and the action that the task asks for, when
/// `event` is reported in `state`. An event that the task does not await in
/// its phase changes nothing. A registry that could not be read ends the
/// cycle and leaves everything as it was.
pub open spec fn step(state: ManagerView, event: EventView) -> (ManagerView, ActionView) {
    match state.phase {
        Phase::Idle => match event {
            EventView::Tick => (
                ManagerView { phase: Phase::Loading, ..state },
                ActionView::ReadRegistry { first: state.first_cycle },
            ),
            _ => (state, ActionView::Wait),
        },
        Phase::Loading => match event {
            EventView::RegistryRead(members) => on_registry(state, members),
            EventView::RegistryFailed => (
                ManagerView { phase: Phase::Idle, ..state },
                ActionView::Wait,
            ),
            _ => (state, ActionView::Wait),
        },
        Phase::Probing => match event {
            EventView::ProbeDone { target, health } => on_probe_done(state, target, health),
            _ => (state, ActionView::Wait),
        },
        Phase::Stopped => (state, ActionView::Wait),
    }
}

/// The members paired with their statuses; a member whose slug has no status
/// is paired with `None`.
pub open spec fn snapshot_of(members: Seq<MemberView>, health: Map<Seq<char>, Verdict>) -> Seq<
    (MemberView, Option<Verdict>),
> {
    Seq::new(
        members.len(),
        |i: int|
            (
                members[i],
                if health.contains_key(members[i].slug) {
                    Some(health[members[i].slug])
                } else {
                    None
                },
            ),
    )
}

/// The manager is consistent when it is made.
pub proof fn lemma_initial_consistent()
    ensures
        consistent(initial()),
{
    let state = initial();
    assert(count_in(state.done, is_set()) == 0);
    assert forall|slug: Seq<char>| !has_reported(state, slug) by {}
}

/// No event makes the manager inconsistent. In particular, never more than
/// [`FAN_OUT`] probes are under way.
pub proof fn lemma_step_consistent(state: ManagerView, event: EventView)
    requires
        consistent(state),
    ensures
        consistent(step(state, event).0),
        0 <= in_flight(step(state, event).0) <= FAN_OUT,
{
    let after = step(state, event).0;
    let none = Seq::<bool>::empty();
    assert(count_in(none, is_set()) == 0);
    match state.phase {
        Phase::Idle => {},
        Phase::Loading => {
            match event {
                EventView::RegistryRead(members) => {
                    let targets = targets_of(members);
                    if targets.len() == 0 {
                        assert forall|slug: Seq<char>| !has_reported(after, slug) by {}
                    } else {
                        let fresh = Seq::new(targets.len(), |i: int| false);
                        lemma_count_in_all(fresh, is_set());
                        assert forall|slug: Seq<char>| !has_reported(after, slug) by {}
                    }
                },
                _ => {},
            }
        },
        Phase::Probing => {
            match event {
                EventView::ProbeDone { target, health } => {
                    if 0 <= target < state.next && !state.done[target] {
                        let done = state.done.update(target, true);
                        lemma_count_in_update(state.done, target, true, is_set());
                        lemma_count_in_all(done, is_set());
                        lemma_count_in_bound(done, is_set());
                        if state.next < state.targets.len() {
                            lemma_reports_grow(state, after, target);
                        } else if forall|i: int| 0 <= i < done.len() ==> #[trigger] done[i] {
                            assert forall|slug: Seq<char>| !has_reported(after, slug) by {}
                        } else {
                            lemma_reports_grow(state, after, target);
                        }
                    }
                },
                _ => {},
            }
        },
        Phase::Stopped => {},
    }
}

/// Which slugs have reported depends on the targets and their reports only.
proof fn lemma_reports_same(before: ManagerView, after: ManagerView)
    requires
        after.targets == before.targets,
        after.done == before.done,
    ensures
        forall|slug: Seq<char>| has_reported(after, slug) == has_reported(before, slug),
{
    assert forall|slug: Seq<char>| has_reported(after, slug) == has_reported(before, slug) by {
        if has_reported(after, slug) {
            let i = choose|i: int|
                0 <= i < after.targets.len() && #[trigger] after.done[i] && after.targets[i].0 == slug;
            assert(before.done[i]);
        }
        if has_reported(before, slug) {
            let i = choose|i: int|
                0 <= i < before.targets.len() && #[trigger] before.done[i] && before.targets[i].0
                    == slug;
            assert(after.done[i]);
        }
    }
}

/// Collecting the report of one target keeps the collected statuses in step
/// with the targets that have reported.
proof fn lemma_reports_grow(state: ManagerView, after: ManagerView, target: int)
    requires
        consistent(state),
        0 <= target < state.targets.len(),
        after.targets == state.targets,
        after.done == state.done.update(target, true),
        after.collected.dom() == state.collected.dom().insert(state.targets[target].0),
    ensures
        forall|slug: Seq<char>| #[trigger]
            after.collected.contains_key(slug) <==> has_reported(after, slug),
{
    assert forall|slug: Seq<char>| #[trigger]
        after.collected.contains_key(slug) <==> has_reported(after, slug) by {
        if has_reported(after, slug) {
            let i = choose|i: int|
                0 <= i < after.targets.len() && #[trigger] after.done[i] && after.targets[i].0 == slug;
            if i != target {
                assert(state.done[i]);
                assert(has_reported(state, slug));
            }
        }
        if state.collected.contains_key(slug) {
            assert(has_reported(state, slug));
            let i = choose|i: int|
                0 <= i < state.targets.len() && #[trigger] state.done[i] && state.targets[i].0 == slug;
            assert(after.done[i]);
        }
        if slug == state.targets[target].0 {
            assert(after.done[target]);
        }
    }
}

/// The statuses that a completed cycle publishes are those of its targets,
/// and of no others.
pub proof fn lemma_published_slugs(state: ManagerView, event: EventView)
    requires
        consistent(state),
        step(state, event).1 is Published,
    ensures
        forall|slug: Seq<char>| #[trigger]
            step(state, event).0.health.contains_key(slug) <==> is_target(state.targets, slug),
{
    let after = step(state, event).0;
    match state.phase {
        Phase::Probing => {
            match event {
                EventView::ProbeDone { target, health } => {
                    assert(0 <= target < state.next && !state.done[target]);
                    let done = state.done.update(target, true);
                    assert(forall|i: int| 0 <= i < done.len() ==> #[trigger] done[i]);
                    let last = ManagerView {
                        done,
                        collected: state.collected.insert(state.targets[target].0, health),
                        ..state
                    };
                    assert(after.health == last.collected);
                    lemma_reports_grow(state, last, target);
                    assert forall|slug: Seq<char>| #[trigger]
                        after.health.contains_key(slug) <==> is_target(state.targets, slug) by {
                        if is_target(state.targets, slug) {
                            let i = choose|i: int|
                                0 <= i < state.targets.len() && (#[trigger] state.targets[i]).0
                                    == slug;
                            assert(last.done[i] && last.targets[i].0 == slug);
                            assert(has_reported(last, slug));
                        }
                        if after.health.contains_key(slug) {
                            assert(has_reported(last, slug));
                        }
                    }
                },
                _ => {},
            }
        },
        _ => {
            assert forall|slug: Seq<char>| !is_target(state.targets, slug) by {}
        },
    }
}

/// The report of a probe that is under way is kept as the status of its
/// target's slug, and no other slug's status is touched by it: a failing
/// probe does not disturb the rest. The statuses of the cycle are the
/// collected ones while the cycle runs, and the published ones once it is
/// complete.
pub proof fn lemma_report_is_kept(state: ManagerView, target: int, health: Verdict)
    requires
        state.phase is Probing,
        0 <= target < state.next,
        !state.done[target],
    ensures
        ({
            let after = step(state, EventView::ProbeDone { target, health });
            let kept = state.collected.insert(state.targets[target].0, health);
            if after.1 is Published {
                after.0.health == kept
            } else {
                after.0.collected == kept && after.0.health == state.health
            }
        }),
{
}

/// The published statuses change in no other way than by the publication of a
/// completed cycle: whoever reads them between two publications reads what
/// the earlier one published, whole.
pub proof fn lemma_statuses_change_on_publication_only(state: ManagerView, event: EventView)
    ensures
        !(step(state, event).1 is Published) ==> step(state, event).0.health == state.health,
{
}

/// The members change in no other way than by the task's reading of the
/// registry: the task is their only writer.
pub proof fn lemma_members_change_on_reading_only(state: ManagerView, event: EventView)
    ensures
        step(state, event).0.members == if state.phase is Loading && event is RegistryRead {
            event->RegistryRead_0
        } else {
            state.members
        },
{
}

/// Once cancelled, the task stays cancelled: no event changes the manager.
pub proof fn lemma_stopped_for_good(state: ManagerView, events: Seq<EventView>)
    requires
        state.phase is Stopped,
    ensures
        after_all(state, events) == state,
    decreases events.len(),
{
    if events.len() > 0 {
        lemma_stopped_for_good(state, events.drop_last());
    }
}

/// The state after a run of events.
pub open spec fn after_all(state: ManagerView, events: Seq<EventView>) -> ManagerView
    decreases events.len(),
{
    if events.len() == 0 {
        state
    } else {
        step(after_all(state, events.drop_last()), events.last()).0
    }
}

/// Some member is `slug`.
pub open spec fn has_member(members: Seq<MemberView>, slug: Seq<char>) -> bool {
    exists|i: int| 0 <= i < members.len() && (#[trigger] members[i]).slug == slug
}

/// Whatever is reported and in whatever order, the manager stays consistent,
/// and never more than [`FAN_OUT`] probes are under way.
pub proof fn lemma_always_consistent(state: ManagerView, events: Seq<EventView>)
    requires
        consistent(state),
    ensures
        consistent(after_all(state, events)),
        0 <= in_flight(after_all(state, events)) <= FAN_OUT,
    decreases events.len(),
{
    if events.len() > 0 {
        lemma_always_consistent(state, events.drop_last());
        lemma_step_consistent(after_all(state, events.drop_last()), events.last());
    }
}

/// While probes report, a cycle keeps the targets it was opened with, until
/// it has published; from then on no further report counts.
proof fn lemma_cycle_keeps_targets(opened: ManagerView, reports: Seq<EventView>)
    requires
        consistent(opened),
        forall|i: int| 0 <= i < reports.len() ==> #[trigger] reports[i] is ProbeDone,
    ensures
        consistent(after_all(opened, reports)),
        after_all(opened, reports).phase is Probing ==> opened.phase is Probing && after_all(
            opened,
            reports,
        ).targets == opened.targets,
        !(opened.phase is Probing) ==> after_all(opened, reports) == opened,
    decreases reports.len(),
{
    if reports.len() > 0 {
        let earlier = reports.drop_last();
        assert forall|i: int| 0 <= i < earlier.len() implies #[trigger] earlier[i] is ProbeDone by {
            assert(reports[i] is ProbeDone);
        }
        lemma_cycle_keeps_targets(opened, earlier);
        lemma_step_consistent(after_all(opened, earlier), reports.last());
        assert(reports[reports.len() - 1] is ProbeDone);
    }
}

/// The statuses that a cycle publishes are those of the members that the
/// registry held when the cycle was opened, and of no others. So once a
/// member has left the registry, the next published mapping has no entry for
/// its slug, whatever status it had before.
pub proof fn lemma_next_mapping_follows_registry(
    state: ManagerView,
    members: Seq<MemberView>,
    reports: Seq<EventView>,
)
    requires
        consistent(state),
        state.phase is Loading,
        reports.len() > 0,
        forall|i: int| 0 <= i < reports.len() ==> #[trigger] reports[i] is ProbeDone,
        step(
            after_all(step(state, EventView::RegistryRead(members)).0, reports.drop_last()),
            reports.last(),
        ).1 is Published,
    ensures
        forall|slug: Seq<char>| #[trigger]
            after_all(step(state, EventView::RegistryRead(members)).0, reports).health.contains_key(
                slug,
            ) <==> has_member(members, slug),
{
    let opened = step(state, EventView::RegistryRead(members)).0;
    let earlier = reports.drop_last();
    let before = after_all(opened, earlier);
    let published = after_all(opened, reports);
    lemma_step_consistent(state, EventView::RegistryRead(members));
    assert forall|i: int| 0 <= i < earlier.len() implies #[trigger] earlier[i] is ProbeDone by {
        assert(reports[i] is ProbeDone);
    }
    lemma_cycle_keeps_targets(opened, earlier);
    assert(reports[reports.len() - 1] is ProbeDone);
    assert(before.phase is Probing);
    assert(before.targets == targets_of(members));
    lemma_published_slugs(before, reports.last());
    assert forall|slug: Seq<char>| #[trigger]
        published.health.contains_key(slug) <==> has_member(members, slug) by {
        if has_member(members, slug) {
            let i = choose|i: int| 0 <= i < members.len() && (#[trigger] members[i]).slug == slug;
            assert(targets_of(members)[i].0 == slug);
            assert(is_target(before.targets, slug));
        }
        if is_target(before.targets, slug) {
            let i = choose|i: int|
                0 <= i < before.targets.len() && (#[trigger] before.targets[i]).0 == slug;
            assert(members[i].slug == slug);
        }
    }
}

/// While the manager says that no health check has completed yet, every
/// member is listed with no status.
pub proof fn lemma_pending_while_first_cycle(state: ManagerView, members: Seq<MemberView>)
    requires
        consistent(state),
        state.first_cycle,
    ensures
        snapshot_of(members, state.health).len() == members.len(),
        forall|i: int|
            0 <= i < members.len() ==> #[trigger] snapshot_of(members, state.health)[i] == (
                members[i],
                None::<Verdict>,
            ),
{
}

/// No step of the run published.
pub open spec fn nothing_published(state: ManagerView, events: Seq<EventView>) -> bool {
    forall|k: int|
        0 <= k < events.len() ==> !(step(after_all(state, #[trigger] events.take(k)), events[k]).1
            is Published)
}

/// As long as no health check has completed, there are no statuses.
pub proof fn lemma_no_statuses_before_first_publication(events: Seq<EventView>)
    requires
        nothing_published(initial(), events),
    ensures
        after_all(initial(), events).first_cycle,
        after_all(initial(), events).health == Map::<Seq<char>, Verdict>::empty(),
    decreases events.len(),
{
    lemma_initial_consistent();
    lemma_always_consistent(initial(), events);
    if events.len() > 0 {
        let earlier = events.drop_last();
        assert(earlier == events.take(events.len() - 1));
        assert forall|k: int| 0 <= k < earlier.len() implies !(step(
            after_all(initial(), #[trigger] earlier.take(k)),
            earlier[k],
        ).1 is Published) by {
            assert(earlier.take(k) =~= events.take(k));
        }
        lemma_no_statuses_before_first_publication(earlier);
        lemma_always_consistent(initial(), earlier);
        assert(events[events.len() - 1] == events.last());
    }
}

/// Before the first health check has completed, every member is listed with
/// no status: none is taken for healthy unprobed.
pub proof fn lemma_pending_before_first_cycle(events: Seq<EventView>, members: Seq<MemberView>)
    requires
        nothing_published(initial(), events),
    ensures
        snapshot_of(members, after_all(initial(), events).health).len() == members.len(),
        forall|i: int|
            0 <= i < members.len() ==> #[trigger] snapshot_of(
                members,
                after_all(initial(), events).health,
            )[i] == (members[i], None::<Verdict>),
{
    lemma_no_statuses_before_first_publication(events);
}

/// A listing holds every member of the registry, in the registry's order,
/// whatever the statuses are.
pub proof fn lemma_snapshot_lists_registry(
    members: Seq<MemberView>,
    health: Map<Seq<char>, Verdict>,
)
    ensures
        snapshot_of(members, health).len() == members.len(),
        forall|i: int|
            0 <= i < members.len() ==> (#[trigger] snapshot_of(members, health)[i]).0
                == members[i],
{
}

/// What a listing of members and statuses stands for.
pub open spec fn listing_of(listing: Seq<(Member, Option<Health>)>) -> Seq<
    (MemberView, Option<Verdict>),
> {
    listing.map_values(
        |entry: (Member, Option<Health>)|
            (
                entry.0@,
                match entry.1 {
                    Some(health) => Some(health@),
                    None => None,
                },
            ),
    )
}

/// What a list of slugs and addresses stands for.
pub open spec fn pairs_of(targets: Seq<(String, String)>) -> Seq<(Seq<char>, Seq<char>)> {
    targets.map_values(|target: (String, String)| (target.0@, target.1@))
}

/// What a list of requests stands for.
pub open spec fn requests_of(list: Seq<ProbeRequest>) -> Seq<RequestView> {
    list.map_values(|request: ProbeRequest| request@)
}

/// Owns the members and their statuses, and decides for the health-check
/// task.
pub struct MemberManager {
    members: Vec<Member>,
    health: HealthMap,
    phase: Phase,
    first_cycle: bool,
    targets: Vec<(String, String)>,
    done: Vec<bool>,
    next: usize,
    finished: usize,
    collected: HealthMap,
}

impl View for MemberManager {
    type V = ManagerView;

    closed spec fn view(&self) -> ManagerView {
        ManagerView {
            members: members_of(self.members@),
            health: self.health@,
            phase: self.phase,
            first_cycle: self.first_cycle,
            targets: pairs_of(self.targets@),
            done: self.done@,
            next: self.next as int,
            collected: self.collected@,
        }
    }
}

/// Makes the requests for the targets `from..to`.
fn make_requests(
    targets: &Vec<(String, String)>,
    from: usize,
    to: usize,
) -> (list: Vec<ProbeRequest>)
    requires
        from <= to <= targets.len(),
    ensures
        requests_of(list@) == requests(pairs_of(targets@), from as int, to as int),
{
    let mut list: Vec<ProbeRequest> = Vec::new();
    let mut at: usize = from;
    while at < to
        invariant
            from <= at <= to <= targets.len(),
            list.len() == at - from,
            forall|k: int|
                0 <= k < list.len() ==> (#[trigger] list[k])@ == (RequestView {
                    target: from + k,
                    slug: targets[from + k].0@,
                    url: targets[from + k].1@,
                }),
        decreases to - at,
    {
        list.push(
            ProbeRequest { target: at, slug: targets[at].0.clone(), url: targets[at].1.clone() },
        );
        at += 1;
    }
    assert(requests_of(list@) =~= requests(pairs_of(targets@), from as int, to as int));
    list
}

impl MemberManager {
    /// The manager is in order: its parts fit together as [`consistent`]
    /// says.
    pub closed spec fn wf(&self) -> bool {
        &&& self.health.wf()
        &&& self.collected.wf()
        &&& self.finished == count_in(self.done@, is_set())
        &&& consistent(self@)
    }

    /// A manager in order is consistent.
    pub proof fn lemma_consistent(&self)
        requires
            self.wf(),
        ensures
            consistent(self@),
    {
    }

    /// Makes the manager: no members yet, no statuses, and the health-check
    /// task waiting for its first period to pass.
    pub fn new() -> (manager: MemberManager)
        ensures
            manager.wf(),
            manager@ == initial(),
    {
        let manager = MemberManager {
            members: Vec::new(),
            health: HealthMap::new(),
            phase: Phase::Idle,
            first_cycle: true,
            targets: Vec::new(),
            done: Vec::new(),
            next: 0,
            finished: 0,
            collected: HealthMap::new(),
        };
        proof {
            lemma_initial_consistent();
            assert(manager@.members =~= Seq::<MemberView>::empty());
            assert(manager@.targets =~= Seq::<(Seq<char>, Seq<char>)>::empty());
            assert(manager@.done =~= Seq::<bool>::empty());
            assert(manager@ == initial());
        }
        manager
    }

    /// Lists the members with their statuses. `fresh` is the registry as it
    /// was read just now: its members are listed, in its order, each with the
    /// status that the last completed health check gave to its slug, or with
    /// `None` where that check knew no such slug. Listing reads the manager
    /// and leaves it as it is.
    pub fn members(&self, fresh: Vec<Member>) -> (listing: Vec<(Member, Option<Health>)>)
        requires
            self.wf(),
        ensures
            listing_of(listing@) == snapshot_of(members_of(fresh@), self@.health),
    {
        let ghost all = fresh@;
        let mut listing: Vec<(Member, Option<Health>)> = Vec::new();
        for member in it: fresh
            invariant
                self.wf(),
                it.seq() == all,
                listing.len() == it.index(),
                forall|k: int|
                    0 <= k < listing.len() ==> listing_of(listing@)[k] == #[trigger] snapshot_of(
                        members_of(all),
                        self@.health,
                    )[k],
        {
            let status = match self.health.get(&member.slug) {
                Some(health) => Some(health.duplicate()),
                None => None,
            };
            listing.push((member, status));
        }
        assert(listing_of(listing@) =~= snapshot_of(members_of(all), self@.health));
        listing
    }

    /// Cancels the health-check task: from now on it asks for nothing and
    /// changes nothing. The members and the published statuses stay as they
    /// are; what a running cycle has collected is dropped unpublished.
    pub fn abort(&mut self)
        requires
            old(self).wf(),
        ensures
            final(self).wf(),
            final(self)@ == at_rest(old(self)@, Phase::Stopped),
    {
        self.phase = Phase::Stopped;
        self.targets = Vec::new();
        self.done = Vec::new();
        self.next = 0;
        self.finished = 0;
        self.collected = HealthMap::new();
        proof {
            let after = self@;
            assert(after.targets =~= Seq::<(Seq<char>, Seq<char>)>::empty());
            assert(after.done =~= Seq::<bool>::empty());
            assert(count_in(after.done, is_set()) == 0);
            assert forall|slug: Seq<char>| !has_reported(after, slug) by {}
        }
    }

    /// Ends a cycle: what was collected is published in place of the earlier
    /// statuses.
    fn publish(&mut self) -> (action: TaskAction)
        requires
            old(self).health.wf(),
            old(self).collected.wf(),
        ensures
            final(self).health.wf(),
            final(self).collected.wf(),
            final(self).finished == 0,
            final(self).members == old(self).members,
            final(self)@ == (ManagerView {
                health: old(self)@.collected,
                first_cycle: false,
                ..at_rest(old(self)@, Phase::Idle)
            }),
            action@ == (ActionView::Published { first: old(self).first_cycle }),
    {
        let first = self.first_cycle;
        core::mem::swap(&mut self.health, &mut self.collected);
        self.collected = HealthMap::new();
        self.first_cycle = false;
        self.phase = Phase::Idle;
        self.targets = Vec::new();
        self.done = Vec::new();
        self.next = 0;
        self.finished = 0;
        proof {
            assert(self@.targets =~= Seq::<(Seq<char>, Seq<char>)>::empty());
            assert(self@.done =~= Seq::<bool>::empty());
        }
        TaskAction::Published { first }
    }

    /// Takes the members that the registry holds and opens the cycle.
    fn begin_cycle(&mut self, members: Vec<Member>) -> (action: TaskAction)
        requires
            old(self).wf(),
            old(self).phase is Loading,
        ensures
            final(self).wf(),
            final(self)@ == on_registry(old(self)@, members_of(members@)).0,
            action@ == on_registry(old(self)@, members_of(members@)).1,
    {
        proof {
            lemma_step_consistent(self@, EventView::RegistryRead(members_of(members@)));
        }
        let ghost before = self@;
        let mut targets: Vec<(String, String)> = Vec::new();
        let mut done: Vec<bool> = Vec::new();
        let mut at: usize = 0;
        while at < members.len()
            invariant
                at <= members.len(),
                targets.len() == at,
                done.len() == at,
                forall|k: int|
                    0 <= k < at ==> (#[trigger] targets[k]).0@ == members[k].slug@ && targets[k].1@
                        == members[k].url@,
                forall|k: int| 0 <= k < at ==> !#[trigger] done[k],
            decreases members.len() - at,
        {
            targets.push((members[at].slug.clone(), members[at].url.clone()));
            done.push(false);
            at += 1;
        }
        assert(pairs_of(targets@) =~= targets_of(members_of(members@)));
        if targets.len() == 0 {
            self.collected = HealthMap::new();
            let action = self.publish();
            self.members = members;
            action
        } else {
            let started = if targets.len() < FAN_OUT {
                targets.len()
            } else {
                FAN_OUT
            };
            let list = make_requests(&targets, 0, started);
            assert(done@ =~= Seq::new(targets.len() as nat, |i: int| false));
            proof {
                lemma_count_in_all(done@, is_set());
            }
            self.members = members;
            self.phase = Phase::Probing;
            self.targets = targets;
            self.done = done;
            self.next = started;
            self.finished = 0;
            self.collected = HealthMap::new();
            TaskAction::StartProbes(list)
        }
    }

    /// Takes the report of one probe.
    fn collect(&mut self, target: usize, health: Health) -> (action: TaskAction)
        requires
            old(self).wf(),
            old(self).phase is Probing,
        ensures
            final(self).wf(),
            final(self)@ == on_probe_done(old(self)@, target as int, health@).0,
            action@ == on_probe_done(old(self)@, target as int, health@).1,
    {
        proof {
            lemma_step_consistent(
                self@,
                EventView::ProbeDone { target: target as int, health: health@ },
            );
        }
        if target < self.next && !self.done[target] {
            proof {
                lemma_count_in_update(self.done@, target as int, true, is_set());
                lemma_count_in_all(self.done@.update(target as int, true), is_set());
            }
            assert(self.finished < self.targets.len()) by {
                assert(self@.done == self.done@);
                assert(self@.targets.len() == self.targets.len());
            }
            let slug = self.targets[target].0.clone();
            self.collected.insert(slug, health);
            self.done.set(target, true);
            self.finished = self.finished + 1;
            if self.next < self.targets.len() {
                let list = make_requests(&self.targets, self.next, self.next + 1);
                self.next = self.next + 1;
                TaskAction::StartProbes(list)
            } else if self.finished == self.targets.len() {
                self.publish()
            } else {
                TaskAction::Wait
            }
        } else {
            TaskAction::Wait
        }
    }

    /// Decides what the health-check task does on `event`: the manager moves
    /// to the next state and the driver is told what to do, as [`step`] says.
    pub fn health_check_task(&mut self, event: TaskEvent) -> (action: TaskAction)
        requires
            old(self).wf(),
        ensures
            final(self).wf(),
            final(self)@ == step(old(self)@, event@).0,
            action@ == step(old(self)@, event@).1,
    {
        proof {
            lemma_step_consistent(self@, event@);
        }
        match self.phase {
            Phase::Idle => match event {
                TaskEvent::Tick => {
                    let ghost before = self@;
                    self.phase = Phase::Loading;
                    proof {
                        lemma_reports_same(before, self@);
                    }
                    TaskAction::ReadRegistry { first: self.first_cycle }
                },
                _ => TaskAction::Wait,
            },
            Phase::Loading => match event {
                TaskEvent::RegistryRead(members) => self.begin_cycle(members),
                TaskEvent::RegistryFailed => {
                    let ghost before = self@;
                    self.phase = Phase::Idle;
                    proof {
                        lemma_reports_same(before, self@);
                    }
                    TaskAction::Wait
                },
                _ => TaskAction::Wait,
            },
            Phase::Probing => match event {
                TaskEvent::ProbeDone { target, health } => self.collect(target, health),
                _ => TaskAction::Wait,
            },
            Phase::Stopped => TaskAction::Wait,
        }
    }
}

} // verus!
