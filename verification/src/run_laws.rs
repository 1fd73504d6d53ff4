//! What holds of every run: of its counters, whatever the order in which
//! the workers report, and of a second run over the output of a first.

use crate::coordinator::{
    count_of, lemma_count_none, lemma_counts_add_up, ItemState, RunView, Standing,
};
use crate::pipeline::{outcome_of, output_path_of, ItemOutcome};
use vstd::multiset::*;
use vstd::prelude::*;
use vstd::seq_lib::*;

verus! {

/// Each count is a matter of how often which state occurs, not of where.
proof fn lemma_count_by_occurrences(states: Seq<ItemState>)
    ensures
        count_of(states, Standing::Waiting) == states.to_multiset().count(ItemState::Queued),
        count_of(states, Standing::InFlight) == states.to_multiset().count(ItemState::Claimed),
        count_of(states, Standing::Skipped) == states.to_multiset().count(
            ItemState::Finished(ItemOutcome::Skipped),
        ),
        count_of(states, Standing::Processed) == states.to_multiset().count(
            ItemState::Finished(ItemOutcome::Converted),
        ) + states.to_multiset().count(ItemState::Finished(ItemOutcome::ConversionFailed))
            + states.to_multiset().count(ItemState::Finished(ItemOutcome::DirectoryFailed)),
    decreases states.len(),
{
    broadcast use group_multiset_axioms;

    if states.len() == 0 {
        assert(states.to_multiset() =~= Multiset::<ItemState>::empty()) by {
            to_multiset_len(states);
        }
    } else {
        let front = states.drop_last();
        lemma_count_by_occurrences(front);
        assert(states =~= front.push(states.last()));
        to_multiset_build(front, states.last());
    }
}

/// The counters of a run follow from how its items ended and from nothing
/// else. Two runs in which the same endings occur equally often have the
/// same counters, however many workers each run had, and in whatever
/// order the items were taken on and reported.
pub proof fn lemma_counters_follow_outcomes(a: RunView, b: RunView)
    requires
        a.wf(),
        b.wf(),
        a.states.to_multiset() == b.states.to_multiset(),
    ensures
        a.counters == b.counters,
{
    lemma_count_by_occurrences(a.states);
    lemma_count_by_occurrences(b.states);
}

/// The output path of each item of a run.
pub open spec fn outputs_of(run: RunView) -> Seq<Seq<Seq<u8>>> {
    Seq::new(
        run.items.len(),
        |i: int| output_path_of(run.output_root, run.items[i].relative_path),
    )
}

/// The run has come to its end on a disk that held the files `present`
/// when it began: each item ended as its steps say, given whether its
/// output was there.
pub open spec fn ran_on(run: RunView, present: Set<Seq<Seq<u8>>>) -> bool {
    &&& run.wf()
    &&& forall|i: int|
        0 <= i < run.states.len() ==> exists|ready: bool, succeeded: bool| #[trigger]
            run.states[i] == ItemState::Finished(
                outcome_of(ready, present.contains(outputs_of(run)[i]), succeeded),
            )
}

/// The files that stand below the output directory after a run that began
/// with the files `present`: those, and the output of every item that was
/// converted.
pub open spec fn present_after(present: Set<Seq<Seq<u8>>>, run: RunView) -> Set<Seq<Seq<u8>>> {
    Set::new(
        |path: Seq<Seq<u8>>|
            present.contains(path) || exists|i: int|
                0 <= i < run.states.len() && #[trigger] run.states[i] == ItemState::Finished(
                    ItemOutcome::Converted,
                ) && outputs_of(run)[i] == path,
    )
}

/// A second run over the output of a first converts nothing. Where every
/// item of the first run was converted or skipped, and the second run, of
/// the same items to the same output directory, begins with the files that
/// the first run left and finds the directories above them in place, the
/// second run skips every item: it ends with no item processed and as
/// many skipped as the first run counted in all.
pub proof fn lemma_second_run_skips_all(
    present: Set<Seq<Seq<u8>>>,
    first: RunView,
    second: RunView,
)
    requires
        ran_on(first, present),
        forall|i: int|
            0 <= i < first.states.len() ==> (#[trigger] first.states[i]) == ItemState::Finished(
                ItemOutcome::Skipped,
            ) || first.states[i] == ItemState::Finished(ItemOutcome::Converted),
        second.output_root == first.output_root,
        second.items == first.items,
        ran_on(second, present_after(present, first)),
        forall|i: int|
            0 <= i < second.states.len() ==> (#[trigger] second.states[i]) != ItemState::Finished(
                ItemOutcome::DirectoryFailed,
            ),
    ensures
        second.counters.processed_count == 0,
        second.counters.skipped_count == first.items.len(),
        second.counters.skipped_count == first.counters.processed_count
            + first.counters.skipped_count,
{
    assert forall|i: int| 0 <= i < second.states.len() implies (#[trigger] second.states[i])
        == ItemState::Finished(ItemOutcome::Skipped) by {
        let (ready, succeeded) = choose|ready: bool, succeeded: bool| #[trigger]
            first.states[i] == ItemState::Finished(
                outcome_of(ready, present.contains(outputs_of(first)[i]), succeeded),
            );
        assert(present_after(present, first).contains(outputs_of(second)[i]));
    }
    lemma_count_none(second.states, Standing::Waiting);
    lemma_count_none(second.states, Standing::InFlight);
    lemma_count_none(second.states, Standing::Processed);
    lemma_counts_add_up(second.states);
    lemma_count_none(first.states, Standing::Waiting);
    lemma_count_none(first.states, Standing::InFlight);
    lemma_counts_add_up(first.states);
}

} // verus!
