//! Where a converted file goes, and the steps that one item goes through.

use crate::util::file_filter::{ImageFile, ImageFileInfo};
use crate::util::path::{ascii_bytes, EntryPath};
use vstd::prelude::*;
use vstd::slice::*;
use vstd::string::*;

verus! {

/// The output directory that is used where none is named: the input
/// directory's path with `-export` behind it.
pub open spec fn default_output_root(path: Seq<u8>) -> Seq<u8> {
    path + ascii_bytes("-export"@)
}

/// The path of the file that an item is converted to: the item's relative
/// path, below the output directory.
pub open spec fn output_path_of(output_root: Seq<u8>, relative_path: Seq<Seq<u8>>) -> Seq<
    Seq<u8>,
> {
    seq![output_root] + relative_path
}

/// The output directory of a run: the one that was named, or else the
/// default for the input directory `path`.
pub fn output_root(path: &[u8], output: Option<Vec<u8>>) -> (r: Vec<u8>)
    ensures
        r@ == match output {
            Some(named) => named@,
            None => default_output_root(path@),
        },
{
    broadcast use is_ascii_spec_bytes;

    match output {
        Some(named) => named,
        None => {
            let suffix = "-export".as_bytes();
            proof {
                reveal_strlit("-export");
                assert(is_ascii("-export"));
            }
            let mut r = slice_to_vec(path);
            let mut i: usize = 0;
            while i < suffix.len()
                invariant
                    i <= suffix@.len(),
                    r@ =~= path@ + suffix@.take(i as int),
                decreases suffix@.len() - i,
            {
                r.push(suffix[i]);
                i += 1;
            }
            r
        },
    }
}

/// The path of the file that `item` is converted to.
pub fn resolve(output_root: &[u8], item: &ImageFileInfo) -> (r: EntryPath)
    ensures
        r@ == output_path_of(output_root@, item@.relative_path),
{
    EntryPath::from_root(output_root).concat(&item.relative_path)
}

/// How the work on one item ended.
#[derive(Clone, Copy, Debug, PartialEq, Eq, Structural)]
pub enum ItemOutcome {
    /// A file stood at the output path already: nothing was converted.
    Skipped,
    /// The file was converted.
    Converted,
    /// The conversion was tried and failed.
    ConversionFailed,
    /// The directories above the output path could not be created. The
    /// item counts as tried and failed.
    DirectoryFailed,
}

/// What is to be done next for an item.
#[derive(Clone, Copy, Debug, PartialEq, Eq, Structural)]
pub enum ItemStage {
    /// Create the directories above the output path that are missing.
    CreateParentDirs,
    /// See whether a file stands at the output path.
    CheckOutput,
    /// Convert the source file to the output path.
    Convert,
    /// Nothing: the work on the item has ended.
    Done(ItemOutcome),
}

/// What came of the step that was to be done.
#[derive(Clone, Copy, Debug, PartialEq, Eq, Structural)]
pub enum ItemEvent {
    /// The directories above the output path exist now, or they could not
    /// be created.
    ParentDirs { ready: bool },
    /// A file stands at the output path, or none does.
    Output { exists: bool },
    /// The conversion succeeded, or it failed.
    Conversion { succeeded: bool },
}

/// The stage that follows `stage` once `event` is known. An event that
/// does not answer what the stage asks for changes nothing.
pub open spec fn next_stage(stage: ItemStage, event: ItemEvent) -> ItemStage {
    match (stage, event) {
        (ItemStage::CreateParentDirs, ItemEvent::ParentDirs { ready }) => if ready {
            ItemStage::CheckOutput
        } else {
            ItemStage::Done(ItemOutcome::DirectoryFailed)
        },
        (ItemStage::CheckOutput, ItemEvent::Output { exists }) => if exists {
            ItemStage::Done(ItemOutcome::Skipped)
        } else {
            ItemStage::Convert
        },
        (ItemStage::Convert, ItemEvent::Conversion { succeeded }) => if succeeded {
            ItemStage::Done(ItemOutcome::Converted)
        } else {
            ItemStage::Done(ItemOutcome::ConversionFailed)
        },
        _ => stage,
    }
}

/// How the work on an item ends: `ready` says whether the directories
/// above the output path could be had, `exists` whether a file stood at
/// the output path, `succeeded` whether the conversion went well.
pub open spec fn outcome_of(ready: bool, exists: bool, succeeded: bool) -> ItemOutcome {
    if !ready {
        ItemOutcome::DirectoryFailed
    } else if exists {
        ItemOutcome::Skipped
    } else if succeeded {
        ItemOutcome::Converted
    } else {
        ItemOutcome::ConversionFailed
    }
}

/// The stage that follows `stage` once `event` is known.
pub fn advance_stage(stage: ItemStage, event: ItemEvent) -> (r: ItemStage)
    ensures
        r == next_stage(stage, event),
{
    match (stage, event) {
        (ItemStage::CreateParentDirs, ItemEvent::ParentDirs { ready }) => if ready {
            ItemStage::CheckOutput
        } else {
            ItemStage::Done(ItemOutcome::DirectoryFailed)
        },
        (ItemStage::CheckOutput, ItemEvent::Output { exists }) => if exists {
            ItemStage::Done(ItemOutcome::Skipped)
        } else {
            ItemStage::Convert
        },
        (ItemStage::Convert, ItemEvent::Conversion { succeeded }) => if succeeded {
            ItemStage::Done(ItemOutcome::Converted)
        } else {
            ItemStage::Done(ItemOutcome::ConversionFailed)
        },
        _ => stage,
    }
}

/// The work on one item, from the moment a worker takes it on. The worker
/// does what the stage asks for and reports what came of it, until the
/// stage is `Done`.
#[derive(Debug)]
pub struct ItemTask {
    ticket: usize,
    item: ImageFileInfo,
    output_root: Vec<u8>,
    stage: ItemStage,
}

/// An `ItemTask` as a mathematical value.
pub struct ItemTaskView {
    /// The item's place in the list of items of the run.
    pub ticket: nat,
    /// The item.
    pub item: ImageFile,
    /// The output directory of the run.
    pub output_root: Seq<u8>,
    /// What is to be done next.
    pub stage: ItemStage,
}

impl ItemTaskView {
    /// The path of the file that the item is converted to.
    pub open spec fn output_path(self) -> Seq<Seq<u8>> {
        output_path_of(self.output_root, self.item.relative_path)
    }
}

impl View for ItemTask {
    type V = ItemTaskView;

    closed spec fn view(&self) -> ItemTaskView {
        ItemTaskView {
            ticket: self.ticket as nat,
            item: self.item@,
            output_root: self.output_root@,
            stage: self.stage,
        }
    }
}

impl ItemTask {
    /// The work on `item`, the item number `ticket` of a run that writes
    /// below `output_root`, before anything was done.
    pub fn new(ticket: usize, output_root: &[u8], item: ImageFileInfo) -> (r: ItemTask)
        ensures
            r@ == (ItemTaskView {
                ticket: ticket as nat,
                item: item@,
                output_root: output_root@,
                stage: ItemStage::CreateParentDirs,
            }),
    {
        ItemTask {
            ticket,
            item,
            output_root: slice_to_vec(output_root),
            stage: ItemStage::CreateParentDirs,
        }
    }

    /// The item's place in the list of items of the run.
    pub fn ticket(&self) -> (r: usize)
        ensures
            r == self@.ticket,
    {
        self.ticket
    }

    /// The item.
    pub fn item(&self) -> (r: &ImageFileInfo)
        ensures
            r@ == self@.item,
    {
        &self.item
    }

    /// What is to be done next.
    pub fn stage(&self) -> (r: ItemStage)
        ensures
            r == self@.stage,
    {
        self.stage
    }

    /// The path of the file to convert.
    pub fn source(&self) -> (r: &EntryPath)
        ensures
            r@ == self@.item.full_path,
    {
        &self.item.full_path
    }

    /// The path of the file that the item is converted to.
    pub fn output_path(&self) -> (r: EntryPath)
        ensures
            r@ == self@.output_path(),
    {
        resolve(self.output_root.as_slice(), &self.item)
    }

    /// The directory that is to hold the converted file: the output path
    /// without its last name.
    pub fn parent_dir(&self) -> (r: EntryPath)
        ensures
            r@ == self@.output_path().drop_last(),
    {
        self.output_path().parent().unwrap()
    }

    /// Takes note of what came of the step that the stage asked for.
    pub fn advance(&mut self, event: ItemEvent)
        ensures
            final(self)@ == (ItemTaskView {
                stage: next_stage(old(self)@.stage, event),
                ..old(self)@
            }),
    {
        self.stage = advance_stage(self.stage, event);
    }

    /// How the work on the item ended, once it has.
    pub fn outcome(&self) -> (r: Option<ItemOutcome>)
        ensures
            r == match self@.stage {
                ItemStage::Done(outcome) => Some(outcome),
                _ => None,
            },
    {
        match self.stage {
            ItemStage::Done(outcome) => Some(outcome),
            _ => None,
        }
    }
}

/// The steps of an item lead to the outcome that `outcome_of` names: from
/// the first stage, the answers to the three questions end the work with
/// that outcome. A question that is not put has no bearing on it: the
/// work has ended before, and stays so.
pub proof fn lemma_steps_end_in_outcome(ready: bool, exists: bool, succeeded: bool)
    ensures
        next_stage(
            next_stage(
                next_stage(ItemStage::CreateParentDirs, ItemEvent::ParentDirs { ready }),
                ItemEvent::Output { exists },
            ),
            ItemEvent::Conversion { succeeded },
        ) == ItemStage::Done(outcome_of(ready, exists, succeeded)),
        !ready ==> next_stage(ItemStage::CreateParentDirs, ItemEvent::ParentDirs { ready })
            == ItemStage::Done(outcome_of(ready, exists, succeeded)),
        ready && exists ==> next_stage(
            next_stage(ItemStage::CreateParentDirs, ItemEvent::ParentDirs { ready }),
            ItemEvent::Output { exists },
        ) == ItemStage::Done(outcome_of(ready, exists, succeeded)),
{
}

/// Work that has ended stays ended: no event changes its outcome.
pub proof fn lemma_done_is_final(outcome: ItemOutcome, event: ItemEvent)
    ensures
        next_stage(ItemStage::Done(outcome), event) == ItemStage::Done(outcome),
{
}

} // verus!
