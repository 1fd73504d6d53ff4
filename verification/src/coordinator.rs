//! The run as a whole: which item a worker takes on next, and the counters
//! that the outcomes add up to.

use crate::pipeline::{ItemOutcome, ItemStage, ItemTask, ItemTaskView};
use crate::util::file_filter::{ImageFile, ImageFileInfo};
use vstd::prelude::*;

verus! {

/// The counters of a run.
#[derive(Clone, Copy, Debug, PartialEq, Eq, Structural)]
pub struct RunCounters {
    /// The items for which a conversion was tried, whether it went well or
    /// not. An item whose output directory could not be created counts
    /// among them.
    pub processed_count: usize,
    /// The items that were left alone because their output existed.
    pub skipped_count: usize,
}

/// How far the run has come with one item.
#[derive(Clone, Copy, Debug, PartialEq, Eq, Structural)]
pub enum ItemState {
    /// No worker has taken the item on yet.
    Queued,
    /// A worker has taken the item on and has not reported back.
    Claimed,
    /// The work on the item has ended.
    Finished(ItemOutcome),
}

/// What an item counts as.
#[derive(Clone, Copy, Debug, PartialEq, Eq, Structural)]
pub enum Standing {
    /// Not taken on yet.
    Waiting,
    /// Taken on and not reported back.
    InFlight,
    /// Ended with a conversion tried.
    Processed,
    /// Ended without one, because the output existed.
    Skipped,
}

/// What an item in state `state` counts as.
pub open spec fn standing_of(state: ItemState) -> Standing {
    match state {
        ItemState::Queued => Standing::Waiting,
        ItemState::Claimed => Standing::InFlight,
        ItemState::Finished(ItemOutcome::Skipped) => Standing::Skipped,
        ItemState::Finished(_) => Standing::Processed,
    }
}

/// The number of items among `states` that count as `standing`.
pub open spec fn count_of(states: Seq<ItemState>, standing: Standing) -> nat
    decreases states.len(),
{
    if states.len() == 0 {
        0
    } else {
        count_of(states.drop_last(), standing) + if standing_of(states.last()) == standing {
            1nat
        } else {
            0nat
        }
    }
}

/// Every item counts as exactly one thing.
pub proof fn lemma_counts_add_up(states: Seq<ItemState>)
    ensures
        count_of(states, Standing::Waiting) + count_of(states, Standing::InFlight) + count_of(
            states,
            Standing::Processed,
        ) + count_of(states, Standing::Skipped) == states.len(),
    decreases states.len(),
{
    if states.len() > 0 {
        lemma_counts_add_up(states.drop_last());
    }
}

/// A change of one item's state moves one count from what the item
/// counted as to what it counts as now.
pub proof fn lemma_count_after_update(
    states: Seq<ItemState>,
    i: int,
    state: ItemState,
    standing: Standing,
)
    requires
        0 <= i < states.len(),
    ensures
        count_of(states.update(i, state), standing) + (if standing_of(states[i]) == standing {
            1nat
        } else {
            0nat
        }) == count_of(states, standing) + (if standing_of(state) == standing {
            1nat
        } else {
            0nat
        }),
    decreases states.len(),
{
    let changed = states.update(i, state);
    if i == states.len() - 1 {
        assert(changed.drop_last() =~= states.drop_last());
    } else {
        assert(changed.drop_last() =~= states.drop_last().update(i, state));
        lemma_count_after_update(states.drop_last(), i, state, standing);
    }
}

/// The number of items among `states` that have been handed out.
pub open spec fn handed_out(states: Seq<ItemState>) -> nat {
    count_of(states, Standing::InFlight) + count_of(states, Standing::Processed) + count_of(
        states,
        Standing::Skipped,
    )
}

/// A `RunCoordinator` as a mathematical value.
pub struct RunView {
    /// The output directory of the run.
    pub output_root: Seq<u8>,
    /// The items of the run, in the order in which they are handed out.
    pub items: Seq<ImageFile>,
    /// How far the run has come with each item.
    pub states: Seq<ItemState>,
    /// The number of workers: no more items than this are in work at once.
    pub workers: nat,
    /// The counters.
    pub counters: RunCounters,
}

impl RunView {
    /// The number of items that have been handed out.
    pub open spec fn handed_out(self) -> nat {
        handed_out(self.states)
    }

    /// The number of items that are in work.
    pub open spec fn in_flight(self) -> nat {
        count_of(self.states, Standing::InFlight)
    }

    /// Every item has been handed out and reported back.
    pub open spec fn finished(self) -> bool {
        forall|i: int| 0 <= i < self.states.len() ==> (#[trigger] self.states[i]) is Finished
    }

    /// The run is in order: there is a state for each item, the items were
    /// handed out from the first on, no more are in work than there are
    /// workers, and the counters say how many items ended in which way.
    pub open spec fn wf(self) -> bool {
        &&& self.states.len() == self.items.len()
        &&& self.workers >= 1
        &&& self.in_flight() <= self.workers
        &&& forall|i: int|
            0 <= i < self.states.len() ==> ((#[trigger] self.states[i]) is Queued
                <==> self.handed_out() <= i)
        &&& self.counters.processed_count == count_of(self.states, Standing::Processed)
        &&& self.counters.skipped_count == count_of(self.states, Standing::Skipped)
    }
}

/// What a worker gets when it asks for work.
#[derive(Debug)]
pub enum Claim {
    /// An item to work on.
    Task(ItemTask),
    /// Nothing for now: as many items are in work as there are workers.
    Busy,
    /// Nothing any more: every item has been handed out.
    Drained,
}

/// The books of a run: how far it has come with each item, and what
/// follows from that, kept at hand.
#[derive(Debug)]
struct Ledger {
    states: Vec<ItemState>,
    next: usize,
    in_flight: usize,
    workers: usize,
    counters: RunCounters,
}

/// What the books say to a worker that asks for work.
enum Slot {
    Ticket(usize),
    Busy,
    Drained,
}

impl Ledger {
    /// The books as those of a run over `items`.
    spec fn run(&self, output_root: Seq<u8>, items: Seq<ImageFile>) -> RunView {
        RunView {
            output_root,
            items,
            states: self.states@,
            workers: self.workers as nat,
            counters: self.counters,
        }
    }

    /// The books are in order for a run over `items`, and what is kept at
    /// hand agrees with the states.
    spec fn in_order(&self, items: Seq<ImageFile>) -> bool {
        &&& self.run(Seq::empty(), items).wf()
        &&& self.next == handed_out(self.states@)
        &&& self.in_flight == count_of(self.states@, Standing::InFlight)
    }

    /// Books for `total` items, none of which has been handed out.
    fn open(total: usize, workers: usize, Ghost(items): Ghost<Seq<ImageFile>>) -> (r: Ledger)
        requires
            workers >= 1,
            items.len() == total,
        ensures
            r.in_order(items),
            r.states@ == Seq::new(total as nat, |i: int| ItemState::Queued),
            r.workers == workers,
            r.counters == (RunCounters { processed_count: 0, skipped_count: 0 }),
    {
        let mut states: Vec<ItemState> = Vec::new();
        let mut i: usize = 0;
        while i < total
            invariant
                i <= total,
                states@ == Seq::new(i as nat, |j: int| ItemState::Queued),
                count_of(states@, Standing::Waiting) == i,
                count_of(states@, Standing::InFlight) == 0,
                count_of(states@, Standing::Processed) == 0,
                count_of(states@, Standing::Skipped) == 0,
            decreases total - i,
        {
            let ghost before = states@;
            states.push(ItemState::Queued);
            assert(states@.drop_last() =~= before);
            i += 1;
        }
        Ledger {
            states,
            next: 0,
            in_flight: 0,
            workers,
            counters: RunCounters { processed_count: 0, skipped_count: 0 },
        }
    }

    /// Marks the first item that has not been handed out as in work, if
    /// there is one and a worker is free for it.
    fn take_next(&mut self, Ghost(items): Ghost<Seq<ImageFile>>) -> (r: Slot)
        requires
            old(self).in_order(items),
        ensures
            final(self).in_order(items),
            final(self).workers == old(self).workers,
            final(self).counters == old(self).counters,
            handed_out(old(self).states@) == items.len() ==> r is Drained && final(self).states@
                == old(self).states@,
            handed_out(old(self).states@) < items.len() && count_of(
                old(self).states@,
                Standing::InFlight,
            ) == old(self).workers ==> r is Busy && final(self).states@ == old(self).states@,
            handed_out(old(self).states@) < items.len() && count_of(
                old(self).states@,
                Standing::InFlight,
            ) < old(self).workers ==> r == Slot::Ticket(handed_out(old(self).states@) as usize)
                && final(self).states@ == old(self).states@.update(
                handed_out(old(self).states@) as int,
                ItemState::Claimed,
            ) && handed_out(final(self).states@) == handed_out(old(self).states@) + 1,
        no_unwind
    {
        proof {
            lemma_counts_add_up(self.states@);
        }
        if self.next >= self.states.len() {
            return Slot::Drained;
        }
        if self.in_flight >= self.workers {
            return Slot::Busy;
        }
        let ticket = self.next;
        proof {
            let now = self.states@.update(ticket as int, ItemState::Claimed);
            lemma_count_after_update(
                self.states@,
                ticket as int,
                ItemState::Claimed,
                Standing::Waiting,
            );
            lemma_count_after_update(
                self.states@,
                ticket as int,
                ItemState::Claimed,
                Standing::InFlight,
            );
            lemma_count_after_update(
                self.states@,
                ticket as int,
                ItemState::Claimed,
                Standing::Processed,
            );
            lemma_count_after_update(
                self.states@,
                ticket as int,
                ItemState::Claimed,
                Standing::Skipped,
            );
            lemma_counts_add_up(now);
        }
        self.states[ticket] = ItemState::Claimed;
        self.next = ticket + 1;
        self.in_flight = self.in_flight + 1;
        Slot::Ticket(ticket)
    }

    /// Marks the item `ticket` as ended with `outcome`, where it is in
    /// work.
    fn settle(
        &mut self,
        ticket: usize,
        outcome: ItemOutcome,
        Ghost(items): Ghost<Seq<ImageFile>>,
    ) -> (accepted: bool)
        requires
            old(self).in_order(items),
        ensures
            final(self).in_order(items),
            final(self).workers == old(self).workers,
            accepted == (ticket < old(self).states@.len() && old(self).states@[ticket as int]
                is Claimed),
            !accepted ==> final(self).states@ == old(self).states@ && final(self).counters == old(
                self,
            ).counters,
            accepted ==> final(self).states@ == old(self).states@.update(
                ticket as int,
                ItemState::Finished(outcome),
            ) && final(self).counters == if outcome == ItemOutcome::Skipped {
                RunCounters {
                    skipped_count: (old(self).counters.skipped_count + 1) as usize,
                    ..old(self).counters
                }
            } else {
                RunCounters {
                    processed_count: (old(self).counters.processed_count + 1) as usize,
                    ..old(self).counters
                }
            },
        no_unwind
    {
        if ticket >= self.states.len() {
            return false;
        }
        if self.states[ticket] != ItemState::Claimed {
            return false;
        }
        proof {
            let state = ItemState::Finished(outcome);
            let now = self.states@.update(ticket as int, state);
            lemma_count_after_update(self.states@, ticket as int, state, Standing::Waiting);
            lemma_count_after_update(self.states@, ticket as int, state, Standing::InFlight);
            lemma_count_after_update(self.states@, ticket as int, state, Standing::Processed);
            lemma_count_after_update(self.states@, ticket as int, state, Standing::Skipped);
            lemma_counts_add_up(now);
        }
        self.states[ticket] = ItemState::Finished(outcome);
        self.in_flight = self.in_flight - 1;
        if outcome == ItemOutcome::Skipped {
            self.counters.skipped_count = self.counters.skipped_count + 1;
        } else {
            self.counters.processed_count = self.counters.processed_count + 1;
        }
        true
    }
}

/// A run over a list of items: hands each item to one worker, once, and
/// counts how the items end.
#[derive(Debug)]
pub struct RunCoordinator {
    output_root: Vec<u8>,
    items: Vec<ImageFileInfo>,
    ledger: Ledger,
}

impl View for RunCoordinator {
    type V = RunView;

    closed spec fn view(&self) -> RunView {
        self.ledger.run(self.output_root@, self.items.deep_view())
    }
}

impl RunCoordinator {
    /// The books are in order at all times.
    #[verifier::type_invariant]
    spec fn books_in_order(&self) -> bool {
        self.ledger.in_order(self.items.deep_view())
    }

    /// A run over `items` with `workers` workers that writes below
    /// `output_root`. Nothing has been handed out.
    pub fn new(output_root: Vec<u8>, items: Vec<ImageFileInfo>, workers: usize) -> (r:
        RunCoordinator)
        requires
            workers >= 1,
        ensures
            r@.wf(),
            r@.output_root == output_root@,
            r@.items == items.deep_view(),
            r@.states == Seq::new(items@.len(), |i: int| ItemState::Queued),
            r@.workers == workers,
            r@.counters == (RunCounters { processed_count: 0, skipped_count: 0 }),
    {
        let ledger = Ledger::open(items.len(), workers, Ghost(items.deep_view()));
        RunCoordinator { output_root, items, ledger }
    }

    /// The number of items of the run.
    pub fn total(&self) -> (r: usize)
        ensures
            r == self@.items.len(),
    {
        self.items.len()
    }

    /// Hands out the next item, if there is one and a worker is free for
    /// it: the first item that has not been handed out.
    pub fn claim(&mut self) -> (r: Claim)
        ensures
            old(self)@.wf(),
            final(self)@.wf(),
            old(self)@.handed_out() == old(self)@.items.len() ==> r is Drained && final(self)@
                == old(self)@,
            old(self)@.handed_out() < old(self)@.items.len() && old(self)@.in_flight() == old(
                self,
            )@.workers ==> r is Busy && final(self)@ == old(self)@,
            old(self)@.handed_out() < old(self)@.items.len() && old(self)@.in_flight() < old(
                self,
            )@.workers ==> r is Task && r->Task_0@ == (ItemTaskView {
                ticket: old(self)@.handed_out(),
                item: old(self)@.items[old(self)@.handed_out() as int],
                output_root: old(self)@.output_root,
                stage: ItemStage::CreateParentDirs,
            }) && final(self)@ == (RunView {
                states: old(self)@.states.update(
                    old(self)@.handed_out() as int,
                    ItemState::Claimed,
                ),
                ..old(self)@
            }) && final(self)@.handed_out() == old(self)@.handed_out() + 1,
    {
        proof {
            use_type_invariant(&*self);
            lemma_counts_add_up(self.ledger.states@);
        }
        match self.ledger.take_next(Ghost(self.items.deep_view())) {
            Slot::Drained => Claim::Drained,
            Slot::Busy => Claim::Busy,
            Slot::Ticket(ticket) => Claim::Task(
                ItemTask::new(ticket, self.output_root.as_slice(), self.items[ticket].duplicate()),
            ),
        }
    }

    /// Takes note that the work on an item has ended. The report counts
    /// where the task has come to its end and its item is in work; any
    /// other report changes nothing. An item that was skipped adds to the
    /// skipped items, every other item to the processed ones.
    pub fn complete(&mut self, task: &ItemTask) -> (accepted: bool)
        ensures
            old(self)@.wf(),
            final(self)@.wf(),
            accepted == (task@.stage is Done && task@.ticket < old(self)@.states.len() && old(
                self,
            )@.states[task@.ticket as int] is Claimed),
            !accepted ==> final(self)@ == old(self)@,
            accepted ==> final(self)@ == (RunView {
                states: old(self)@.states.update(
                    task@.ticket as int,
                    ItemState::Finished(task@.stage->Done_0),
                ),
                counters: if task@.stage->Done_0 == ItemOutcome::Skipped {
                    RunCounters {
                        skipped_count: (old(self)@.counters.skipped_count + 1) as usize,
                        ..old(self)@.counters
                    }
                } else {
                    RunCounters {
                        processed_count: (old(self)@.counters.processed_count + 1) as usize,
                        ..old(self)@.counters
                    }
                },
                ..old(self)@
            }),
    {
        proof {
            use_type_invariant(&*self);
        }
        match task.outcome() {
            Some(outcome) => self.ledger.settle(
                task.ticket(),
                outcome,
                Ghost(self.items.deep_view()),
            ),
            None => false,
        }
    }

    /// Whether every item has been handed out and reported back.
    pub fn is_finished(&self) -> (r: bool)
        ensures
            self@.wf(),
            r == self@.finished(),
    {
        proof {
            use_type_invariant(self);
            lemma_finished_means_none_left(self@);
            lemma_counts_add_up(self.ledger.states@);
        }
        self.ledger.next >= self.ledger.states.len() && self.ledger.in_flight == 0
    }

    /// The counters, once the run has finished. Before that they are not
    /// to be had: some worker may still be about to add to them.
    pub fn counters(&self) -> (r: Option<RunCounters>)
        ensures
            self@.wf(),
            r == if self@.finished() {
                Some(self@.counters)
            } else {
                None
            },
            r matches Some(counters) ==> counters.processed_count + counters.skipped_count
                == self@.items.len(),
    {
        if self.is_finished() {
            proof {
                lemma_finished_counters_add_up(self@);
            }
            Some(self.ledger.counters)
        } else {
            None
        }
    }
}

/// A run has finished exactly when no item waits and none is in work.
pub proof fn lemma_finished_means_none_left(run: RunView)
    requires
        run.wf(),
    ensures
        run.finished() <==> run.handed_out() == run.items.len() && run.in_flight() == 0,
{
    lemma_count_none(run.states, Standing::Waiting);
    lemma_count_none(run.states, Standing::InFlight);
    lemma_counts_add_up(run.states);
}

/// No item counts as `standing` exactly when the count is zero.
pub proof fn lemma_count_none(states: Seq<ItemState>, standing: Standing)
    ensures
        count_of(states, standing) == 0 <==> forall|i: int|
            0 <= i < states.len() ==> standing_of(#[trigger] states[i]) != standing,
    decreases states.len(),
{
    if states.len() > 0 {
        let front = states.drop_last();
        lemma_count_none(front, standing);
        if count_of(states, standing) == 0 {
            assert forall|i: int| 0 <= i < states.len() implies standing_of(
                #[trigger] states[i],
            ) != standing by {
                if i < front.len() {
                    assert(front[i] == states[i]);
                }
            }
        }
    }
}

/// At the end of a run the two counters add up to the number of items,
/// whatever the number of workers was: every item was either processed or
/// skipped.
pub proof fn lemma_finished_counters_add_up(run: RunView)
    requires
        run.wf(),
        run.finished(),
    ensures
        run.counters.processed_count + run.counters.skipped_count == run.items.len(),
{
    lemma_finished_means_none_left(run);
    lemma_counts_add_up(run.states);
}

/// A run that has not finished can go on: an item is in work, or the next
/// item can be handed out.
pub proof fn lemma_run_can_go_on(run: RunView)
    requires
        run.wf(),
        !run.finished(),
    ensures
        run.in_flight() >= 1 || (run.handed_out() < run.items.len() && run.in_flight()
            < run.workers),
{
    lemma_finished_means_none_left(run);
    lemma_counts_add_up(run.states);
}

} // verus!
