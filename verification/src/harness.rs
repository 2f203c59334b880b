//! The run itself: four boxes are built, each is reported, and then the run
//! fails.
//!
//! The harness decides and its driver acts. The driver asks for the pending
//! action, carries it out, and hands back the event that tells what came of
//! it; the harness answers with the next action. An event that does not fit
//! the state ends the run at once.

use crate::address::{is_fresh_among, distinct_nonzero, is_fresh, lemma_push_fresh, AddressPair};
use vstd::prelude::*;

verus! {

/// The number of boxes in a run.
pub const BOX_COUNT: usize = 4;

/// The value held by the first box; each later box holds one more.
pub const FIRST_PAYLOAD: isize = 3;

/// The value held by the box that is built after `built` others.
pub open spec fn payload_at(built: nat) -> int {
    FIRST_PAYLOAD + built
}

/// Where a run stands.
#[derive(Clone, Copy, Debug, PartialEq, Eq, Structural)]
pub enum Phase {
    /// Boxes are still being built.
    Constructing,
    /// All boxes are built and lines are still owed.
    Reporting,
    /// The run has failed. Nothing leads out of this phase.
    Failing,
}

/// What the driver did.
#[derive(Clone, Copy, Debug, PartialEq, Eq, Structural)]
pub enum Event {
    /// The box that was asked for is built; these are its addresses.
    Constructed(AddressPair),
    /// The line that was asked for is written.
    Reported,
}

/// What the driver is to do next.
#[derive(Clone, Copy, Debug, PartialEq, Eq, Structural)]
pub enum Action {
    /// Build a box that holds `payload` and bind it to a handle of its own.
    Construct { payload: isize },
    /// Write the line for `pair`.
    Report { pair: AddressPair },
    /// Fail, for good.
    Fail,
}

/// The state of a run as a mathematical value.
pub struct Run {
    /// The phase.
    pub phase: Phase,
    /// The boxes built so far, in the order in which they were built.
    pub pairs: Seq<AddressPair>,
    /// The number of lines written so far.
    pub reported: nat,
}

impl Run {
    /// The state before anything is built.
    pub open spec fn initial() -> Run {
        Run { phase: Phase::Constructing, pairs: Seq::empty(), reported: 0 }
    }

    /// What every state of a run satisfies.
    pub open spec fn wf(self) -> bool {
        &&& self.pairs.len() <= BOX_COUNT
        &&& self.reported <= self.pairs.len()
        &&& distinct_nonzero(self.pairs)
        &&& self.phase == Phase::Constructing ==> self.pairs.len() < BOX_COUNT && self.reported == 0
        &&& self.phase == Phase::Reporting ==> self.pairs.len() == BOX_COUNT && self.reported
            < BOX_COUNT
        &&& self.reported > 0 ==> self.pairs.len() == BOX_COUNT
    }

    /// Whether `event` tells of the pending action carried out well: the
    /// box that was asked for, at addresses that no earlier box has, or the
    /// line that was asked for.
    pub open spec fn accepts(self, event: Event) -> bool {
        match (self.phase, event) {
            (Phase::Constructing, Event::Constructed(pair)) => is_fresh(self.pairs, pair),
            (Phase::Reporting, Event::Reported) => true,
            _ => false,
        }
    }

    /// The action that the driver owes in this state.
    pub open spec fn pending(self) -> Action {
        match self.phase {
            Phase::Constructing => Action::Construct {
                payload: payload_at(self.pairs.len()) as isize,
            },
            Phase::Reporting => Action::Report { pair: self.pairs[self.reported as int] },
            Phase::Failing => Action::Fail,
        }
    }

    /// The state after `event`.
    pub open spec fn next(self, event: Event) -> Run {
        if !self.accepts(event) {
            Run { phase: Phase::Failing, ..self }
        } else {
            match event {
                Event::Constructed(pair) => Run {
                    phase: if self.pairs.len() + 1 == BOX_COUNT {
                        Phase::Reporting
                    } else {
                        Phase::Constructing
                    },
                    pairs: self.pairs.push(pair),
                    reported: 0,
                },
                Event::Reported => Run {
                    phase: if self.reported + 1 == BOX_COUNT {
                        Phase::Failing
                    } else {
                        Phase::Reporting
                    },
                    reported: self.reported + 1,
                    ..self
                },
            }
        }
    }

    /// The number of events accepted so far.
    pub open spec fn progress(self) -> nat {
        self.pairs.len() + self.reported
    }
}

/// The state after a whole sequence of events, from the start.
pub open spec fn run_of(events: Seq<Event>) -> Run
    decreases events.len(),
{
    if events.len() == 0 {
        Run::initial()
    } else {
        run_of(events.drop_last()).next(events.last())
    }
}

/// The events of a driver that builds `pairs` in order and writes every
/// line it is asked for.
pub open spec fn faithful_events(pairs: Seq<AddressPair>) -> Seq<Event> {
    Seq::new(
        2 * pairs.len(),
        |i: int|
            if i < pairs.len() {
                Event::Constructed(pairs[i])
            } else {
                Event::Reported
            },
    )
}

/// A run in progress.
pub struct Harness {
    phase: Phase,
    pairs: Vec<AddressPair>,
    reported: usize,
}

impl View for Harness {
    type V = Run;

    closed spec fn view(&self) -> Run {
        Run { phase: self.phase, pairs: self.pairs@, reported: self.reported as nat }
    }
}

impl Harness {
    #[verifier::type_invariant]
    closed spec fn inv(self) -> bool {
        self@.wf()
    }

    /// A run in which nothing is built yet.
    pub fn new() -> (harness: Harness)
        ensures
            harness@ == Run::initial(),
    {
        Harness { phase: Phase::Constructing, pairs: Vec::new(), reported: 0 }
    }

    /// The phase of the run.
    pub fn phase(&self) -> (phase: Phase)
        ensures
            phase == self@.phase,
            self@.wf(),
    {
        proof {
            use_type_invariant(self);
        }
        self.phase
    }

    /// The number of boxes built so far.
    pub fn constructed(&self) -> (count: usize)
        ensures
            count == self@.pairs.len(),
            count <= BOX_COUNT,
    {
        proof {
            use_type_invariant(self);
        }
        self.pairs.len()
    }

    /// The number of lines written so far.
    pub fn reported(&self) -> (count: usize)
        ensures
            count == self@.reported,
            count <= BOX_COUNT,
    {
        proof {
            use_type_invariant(self);
        }
        self.reported
    }

    /// The action that the driver owes now.
    pub fn pending(&self) -> (action: Action)
        ensures
            action == self@.pending(),
            self@.wf(),
    {
        proof {
            use_type_invariant(self);
        }
        match self.phase {
            Phase::Constructing => Action::Construct {
                payload: FIRST_PAYLOAD + self.pairs.len() as isize,
            },
            Phase::Reporting => Action::Report { pair: self.pairs[self.reported] },
            Phase::Failing => Action::Fail,
        }
    }

    /// Takes in what the driver did and answers with what it is to do next.
    pub fn step(self, event: Event) -> (out: (Harness, Action))
        ensures
            out.0@ == self@.next(event),
            out.0@.wf(),
            out.1 == out.0@.pending(),
    {
        proof {
            use_type_invariant(&self);
            lemma_next_wf(self@, event);
        }
        let Harness { phase, pairs, reported } = self;
        let mut pairs = pairs;
        let after = match (phase, event) {
            (Phase::Constructing, Event::Constructed(pair)) => {
                if is_fresh_among(&pairs, pair) {
                    pairs.push(pair);
                    let phase = if pairs.len() == BOX_COUNT {
                        Phase::Reporting
                    } else {
                        Phase::Constructing
                    };
                    Harness { phase, pairs, reported: 0 }
                } else {
                    Harness { phase: Phase::Failing, pairs, reported }
                }
            },
            (Phase::Reporting, Event::Reported) => {
                let reported: usize = reported + 1;
                let phase = if reported == BOX_COUNT {
                    Phase::Failing
                } else {
                    Phase::Reporting
                };
                Harness { phase, pairs, reported }
            },
            _ => Harness { phase: Phase::Failing, pairs, reported },
        };
        let action = after.pending();
        (after, action)
    }
}

/// A step leads from a state of a run to a state of a run.
pub proof fn lemma_next_wf(run: Run, event: Event)
    requires
        run.wf(),
    ensures
        run.next(event).wf(),
{
    if let Event::Constructed(pair) = event {
        lemma_push_fresh(run.pairs, pair);
    }
}

/// The failing phase is terminal: whatever happens next, the run stays as
/// it is and the only action left is to fail.
pub proof fn lemma_failing_is_terminal(run: Run, event: Event)
    requires
        run.phase == Phase::Failing,
    ensures
        run.next(event) == run,
        run.next(event).pending() == Action::Fail,
{
}

/// The place of a phase in the order in which a run goes through them.
pub open spec fn phase_rank(phase: Phase) -> nat {
    match phase {
        Phase::Constructing => 0,
        Phase::Reporting => 1,
        Phase::Failing => 2,
    }
}

/// No step leads back to an earlier phase, no step takes a box or a line
/// back, and a step that does not fail the run counts one event more.
pub proof fn lemma_no_way_back(run: Run, event: Event)
    requires
        run.wf(),
    ensures
        phase_rank(run.next(event).phase) >= phase_rank(run.phase),
        run.pairs.is_prefix_of(run.next(event).pairs),
        run.next(event).reported >= run.reported,
        run.accepts(event) ==> run.next(event).progress() == run.progress() + 1,
        !run.accepts(event) ==> run.next(event).phase == Phase::Failing,
{
}

/// Every state that a run can reach is a state of a run: at no time are
/// more than four boxes built or more than four lines written, and all
/// addresses on record are non-zero and distinct. A run counts no more
/// events than it was given, and until it fails it counts them all.
pub proof fn lemma_reachable(events: Seq<Event>)
    ensures
        run_of(events).wf(),
        distinct_nonzero(run_of(events).pairs),
        run_of(events).progress() <= events.len(),
        run_of(events).phase != Phase::Failing ==> run_of(events).progress() == events.len(),
    decreases events.len(),
{
    if events.len() > 0 {
        lemma_reachable(events.drop_last());
        lemma_next_wf(run_of(events.drop_last()), events.last());
        lemma_no_way_back(run_of(events.drop_last()), events.last());
    }
}

/// Whenever a line is owed, all four boxes are on record, their eight
/// addresses are non-zero and no two of them are equal, and the line owed
/// is that of the box whose turn it is in the order of building.
pub proof fn lemma_lines_are_of_distinct_boxes(events: Seq<Event>)
    requires
        run_of(events).phase == Phase::Reporting,
    ensures
        run_of(events).pairs.len() == BOX_COUNT,
        run_of(events).reported < BOX_COUNT,
        distinct_nonzero(run_of(events).pairs),
        run_of(events).pending() == (Action::Report {
            pair: run_of(events).pairs[run_of(events).reported as int],
        }),
{
    lemma_reachable(events);
}

/// Every run fails: after eight events, whatever they were, the run is in
/// the failing phase, and it stays there.
pub proof fn lemma_every_run_fails(events: Seq<Event>)
    requires
        events.len() >= 2 * BOX_COUNT,
    ensures
        run_of(events).phase == Phase::Failing,
        run_of(events).pending() == Action::Fail,
{
    lemma_reachable(events);
}

/// A run fails only with its fourth line or on an event that it does not
/// accept: one that has accepted every event it was given is in the failing
/// phase exactly when four lines are written.
pub proof fn lemma_fails_after_four_lines(events: Seq<Event>)
    requires
        run_of(events).progress() == events.len(),
    ensures
        run_of(events).phase == Phase::Failing <==> run_of(events).reported == BOX_COUNT,
    decreases events.len(),
{
    lemma_reachable(events);
    if events.len() > 0 {
        let before = run_of(events.drop_last());
        lemma_reachable(events.drop_last());
        lemma_no_way_back(before, events.last());
        if before.phase != Phase::Failing {
            lemma_fails_after_four_lines(events.drop_last());
        }
    }
}

/// The run of a driver that builds four boxes at distinct non-zero
/// addresses and writes each line it is asked for. After `n` of its events
/// the first `n` boxes are on record, in the order in which they were
/// built, while boxes are built; then all four with `n - 4` lines written,
/// and with the fourth line the run has failed.
pub proof fn lemma_faithful_run(pairs: Seq<AddressPair>, n: nat)
    requires
        pairs.len() == BOX_COUNT,
        distinct_nonzero(pairs),
        n <= 2 * BOX_COUNT,
    ensures
        run_of(faithful_events(pairs).take(n as int)) == (Run {
            phase: if n < BOX_COUNT {
                Phase::Constructing
            } else if n < 2 * BOX_COUNT {
                Phase::Reporting
            } else {
                Phase::Failing
            },
            pairs: if n < BOX_COUNT {
                pairs.take(n as int)
            } else {
                pairs
            },
            reported: if n < BOX_COUNT {
                0
            } else {
                (n - BOX_COUNT) as nat
            },
        }),
    decreases n,
{
    let events = faithful_events(pairs).take(n as int);
    if n > 0 {
        let m = (n - 1) as nat;
        lemma_faithful_run(pairs, m);
        assert(events.drop_last() =~= faithful_events(pairs).take(m as int));
        if n <= BOX_COUNT {
            assert(is_fresh(pairs.take(m as int), pairs[m as int])) by {
                assert forall|i: int| 0 <= i < m implies (#[trigger] pairs.take(m as int)[i]).apart_from(
                    pairs[m as int],
                ) by {
                    assert(pairs.take(m as int)[i] == pairs[i]);
                }
            }
            assert(pairs.take(m as int).push(pairs[m as int]) =~= pairs.take(n as int));
            assert(pairs.take(BOX_COUNT as int) =~= pairs);
        }
    } else {
        assert(pairs.take(0) =~= Seq::<AddressPair>::empty());
    }
}

/// What the driver of a faithful run is asked to do, step by step: to
/// build boxes that hold three, four, five and six, then to write the line
/// of each box in the order in which the boxes were built, then to fail.
pub proof fn lemma_faithful_actions(pairs: Seq<AddressPair>, n: nat)
    requires
        pairs.len() == BOX_COUNT,
        distinct_nonzero(pairs),
        n <= 2 * BOX_COUNT,
    ensures
        ({
            let action = run_of(faithful_events(pairs).take(n as int)).pending();
            &&& n < BOX_COUNT ==> action == (Action::Construct { payload: (3 + n) as isize })
            &&& BOX_COUNT <= n < 2 * BOX_COUNT ==> action == (Action::Report {
                pair: pairs[n - BOX_COUNT],
            })
            &&& n == 2 * BOX_COUNT ==> action == Action::Fail
        }),
{
    lemma_faithful_run(pairs, n);
}

/// Two faithful runs go the same way whatever their addresses are: after
/// equally many events they are in the same phase, with equally many
/// boxes built and lines written, and each has its own addresses on record.
pub proof fn lemma_runs_alike(first: Seq<AddressPair>, second: Seq<AddressPair>, n: nat)
    requires
        first.len() == BOX_COUNT,
        second.len() == BOX_COUNT,
        distinct_nonzero(first),
        distinct_nonzero(second),
        n <= 2 * BOX_COUNT,
    ensures
        ({
            let a = run_of(faithful_events(first).take(n as int));
            let b = run_of(faithful_events(second).take(n as int));
            &&& a.phase == b.phase
            &&& a.pairs.len() == b.pairs.len()
            &&& a.reported == b.reported
            &&& a.pairs.is_prefix_of(first)
            &&& b.pairs.is_prefix_of(second)
            &&& a.wf()
            &&& b.wf()
        }),
{
    lemma_faithful_run(first, n);
    lemma_faithful_run(second, n);
    lemma_reachable(faithful_events(first).take(n as int));
    lemma_reachable(faithful_events(second).take(n as int));
}

} // verus!
