use webp_batch::pipeline::{
    advance_stage, output_root, resolve, ItemEvent, ItemOutcome, ItemStage, ItemTask,
};
use webp_batch::util::file_filter::ImageFileInfo;
use webp_batch::util::path::EntryPath;

fn path(pieces: &[&[u8]]) -> EntryPath {
    EntryPath { pieces: pieces.iter().map(|p| p.to_vec()).collect() }
}

fn item(root: &[u8], relative: &[&[u8]], filename: &str) -> ImageFileInfo {
    ImageFileInfo {
        relative_path: path(relative),
        filename: filename.to_string(),
        full_path: EntryPath::from_root(root).concat(&path(relative)),
    }
}

const READY: ItemEvent = ItemEvent::ParentDirs { ready: true };
const NOT_READY: ItemEvent = ItemEvent::ParentDirs { ready: false };
const EXISTS: ItemEvent = ItemEvent::Output { exists: true };
const ABSENT: ItemEvent = ItemEvent::Output { exists: false };
const SUCCEEDED: ItemEvent = ItemEvent::Conversion { succeeded: true };
const FAILED: ItemEvent = ItemEvent::Conversion { succeeded: false };

#[test]
fn default_output_root_appends_export() {
    assert_eq!(output_root(b"pictures", None), b"pictures-export".to_vec());
    assert_eq!(output_root(b"/data/in/", None), b"/data/in/-export".to_vec());
    assert_eq!(output_root(b"", None), b"-export".to_vec());
}

#[test]
fn named_output_root_is_taken_as_it_is() {
    assert_eq!(output_root(b"pictures", Some(b"elsewhere".to_vec())), b"elsewhere".to_vec());
    assert_eq!(output_root(b"pictures", Some(Vec::new())), Vec::<u8>::new());
}

#[test]
fn output_path_mirrors_the_relative_path() {
    let it = item(b"in", &[b"a", b"b.jpg"], "b.jpg");
    assert_eq!(resolve(b"out", &it), path(&[b"out", b"a", b"b.jpg"]));
    let top = item(b"in", &[b"c.png"], "c.png");
    assert_eq!(resolve(b"in-export", &top), path(&[b"in-export", b"c.png"]));
}

#[test]
fn new_task_starts_with_the_directories() {
    let task = ItemTask::new(7, b"out", item(b"in", &[b"a", b"b.jpg"], "b.jpg"));
    assert_eq!(task.ticket(), 7);
    assert_eq!(task.stage(), ItemStage::CreateParentDirs);
    assert_eq!(task.outcome(), None);
    assert_eq!(*task.item(), item(b"in", &[b"a", b"b.jpg"], "b.jpg"));
    assert_eq!(*task.source(), path(&[b"in", b"a", b"b.jpg"]));
    assert_eq!(task.output_path(), path(&[b"out", b"a", b"b.jpg"]));
    assert_eq!(task.parent_dir(), path(&[b"out", b"a"]));
}

#[test]
fn parent_dir_of_a_top_level_item_is_the_output_root() {
    let task = ItemTask::new(0, b"out", item(b"in", &[b"c.png"], "c.png"));
    assert_eq!(task.parent_dir(), path(&[b"out"]));
    let odd = ItemTask::new(0, b"out", item(b"in", &[], "unknown"));
    assert_eq!(odd.output_path(), path(&[b"out"]));
    assert_eq!(odd.parent_dir(), EntryPath::new());
}

#[test]
fn conversion_that_succeeds_ends_converted() {
    let mut task = ItemTask::new(0, b"out", item(b"in", &[b"c.png"], "c.png"));
    task.advance(READY);
    assert_eq!(task.stage(), ItemStage::CheckOutput);
    task.advance(ABSENT);
    assert_eq!(task.stage(), ItemStage::Convert);
    assert_eq!(task.outcome(), None);
    task.advance(SUCCEEDED);
    assert_eq!(task.stage(), ItemStage::Done(ItemOutcome::Converted));
    assert_eq!(task.outcome(), Some(ItemOutcome::Converted));
}

#[test]
fn conversion_that_fails_ends_failed() {
    let mut task = ItemTask::new(0, b"out", item(b"in", &[b"c.png"], "c.png"));
    task.advance(READY);
    task.advance(ABSENT);
    task.advance(FAILED);
    assert_eq!(task.outcome(), Some(ItemOutcome::ConversionFailed));
}

#[test]
fn existing_output_is_skipped_without_conversion() {
    let mut task = ItemTask::new(0, b"out", item(b"in", &[b"c.png"], "c.png"));
    task.advance(READY);
    task.advance(EXISTS);
    assert_eq!(task.stage(), ItemStage::Done(ItemOutcome::Skipped));
    assert_eq!(task.outcome(), Some(ItemOutcome::Skipped));
}

#[test]
fn directories_that_cannot_be_created_end_the_item() {
    let mut task = ItemTask::new(0, b"out", item(b"in", &[b"c.png"], "c.png"));
    task.advance(NOT_READY);
    assert_eq!(task.stage(), ItemStage::Done(ItemOutcome::DirectoryFailed));
    assert_eq!(task.outcome(), Some(ItemOutcome::DirectoryFailed));
}

#[test]
fn event_that_was_not_asked_for_changes_nothing() {
    let stages = [ItemStage::CreateParentDirs, ItemStage::CheckOutput, ItemStage::Convert];
    let events = [[READY, NOT_READY], [EXISTS, ABSENT], [SUCCEEDED, FAILED]];
    for (s, stage) in stages.iter().enumerate() {
        for (e, pair) in events.iter().enumerate() {
            for event in pair {
                if s != e {
                    assert_eq!(advance_stage(*stage, *event), *stage);
                } else {
                    assert_ne!(advance_stage(*stage, *event), *stage);
                }
            }
        }
    }
}

#[test]
fn finished_work_stays_finished() {
    let outcomes = [
        ItemOutcome::Skipped,
        ItemOutcome::Converted,
        ItemOutcome::ConversionFailed,
        ItemOutcome::DirectoryFailed,
    ];
    for outcome in outcomes {
        for event in [READY, NOT_READY, EXISTS, ABSENT, SUCCEEDED, FAILED] {
            assert_eq!(advance_stage(ItemStage::Done(outcome), event), ItemStage::Done(outcome));
        }
    }
}

#[test]
fn every_transition_of_the_steps() {
    assert_eq!(advance_stage(ItemStage::CreateParentDirs, READY), ItemStage::CheckOutput);
    assert_eq!(
        advance_stage(ItemStage::CreateParentDirs, NOT_READY),
        ItemStage::Done(ItemOutcome::DirectoryFailed)
    );
    assert_eq!(
        advance_stage(ItemStage::CheckOutput, EXISTS),
        ItemStage::Done(ItemOutcome::Skipped)
    );
    assert_eq!(advance_stage(ItemStage::CheckOutput, ABSENT), ItemStage::Convert);
    assert_eq!(
        advance_stage(ItemStage::Convert, SUCCEEDED),
        ItemStage::Done(ItemOutcome::Converted)
    );
    assert_eq!(
        advance_stage(ItemStage::Convert, FAILED),
        ItemStage::Done(ItemOutcome::ConversionFailed)
    );
}
