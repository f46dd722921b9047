//! The protocol by which a store file is replaced in one step.
//!
//! The new content is written to a temporary file beside the store file,
//! the temporary file is synced to the disk, and only then renamed over the
//! store file. Whatever fails before the rename, the store file keeps its
//! old content. The caller does the work on the disk; what is to be done
//! next, and with what the replacement ends, is decided here.

use crate::store::StoreError;
use vstd::prelude::*;

verus! {

/// One piece of work on the disk.
#[derive(Clone, Copy, Debug, PartialEq, Eq, Structural)]
pub enum Step {
    /// Write the whole new content to a new temporary file in the store
    /// file's directory.
    WriteTemp,
    /// Flush the temporary file to durable storage.
    SyncTemp,
    /// Rename the temporary file over the store file.
    RenameTemp,
    /// Remove the temporary file.
    RemoveTemp,
}

/// Where a replacement stands.
#[derive(Clone, Copy, Debug, PartialEq, Eq, Structural)]
pub enum Progress {
    /// The temporary file is to be written.
    Writing,
    /// The temporary file is written and is to be synced.
    Syncing,
    /// The temporary file is synced and is to be renamed.
    Renaming,
    /// A step has failed and the temporary file is to be removed.
    Removing,
    /// Nothing is left to do; the store file was replaced or it was not.
    Done { replaced: bool },
}

/// What the caller is to do next.
#[derive(Clone, Copy, Debug, PartialEq, Eq)]
pub enum Next {
    /// Do this step and report whether it succeeded.
    Do(Step),
    /// Stop with this result.
    Finish(Result<(), StoreError>),
}

/// What is pending at a point of the replacement.
pub open spec fn pending_spec(progress: Progress) -> Next {
    match progress {
        Progress::Writing => Next::Do(Step::WriteTemp),
        Progress::Syncing => Next::Do(Step::SyncTemp),
        Progress::Renaming => Next::Do(Step::RenameTemp),
        Progress::Removing => Next::Do(Step::RemoveTemp),
        Progress::Done { replaced } => if replaced {
            Next::Finish(Ok(()))
        } else {
            Next::Finish(Err(StoreError::IOFailure))
        },
    }
}

/// Where the replacement stands after the pending step succeeded or
/// failed.
pub open spec fn advance_spec(progress: Progress, succeeded: bool) -> Progress {
    match progress {
        Progress::Writing => if succeeded {
            Progress::Syncing
        } else {
            Progress::Removing
        },
        Progress::Syncing => if succeeded {
            Progress::Renaming
        } else {
            Progress::Removing
        },
        Progress::Renaming => if succeeded {
            Progress::Done { replaced: true }
        } else {
            Progress::Removing
        },
        Progress::Removing => Progress::Done { replaced: false },
        Progress::Done { replaced } => Progress::Done { replaced },
    }
}

/// The store file and the temporary file, each with its content if it is
/// there.
pub struct Disk {
    pub store: Option<Seq<u8>>,
    pub temp: Option<Seq<u8>>,
}

/// What a step may do to the disk. A write that fails may leave any
/// temporary file behind; a rename takes place wholly or not at all; no
/// step but the rename touches the store file.
pub open spec fn may_follow(
    step: Step,
    succeeded: bool,
    content: Seq<u8>,
    before: Disk,
    after: Disk,
) -> bool {
    match step {
        Step::WriteTemp => after.store == before.store && (succeeded ==> after.temp == Some(
            content,
        )),
        Step::SyncTemp => after == before,
        Step::RenameTemp => if succeeded {
            before.temp is Some && after.store == before.temp && after.temp is None
        } else {
            after == before
        },
        Step::RemoveTemp => after.store == before.store && (succeeded ==> after.temp is None),
    }
}

/// What holds of the disk at each point of a replacement of `old` by
/// `content`: until the rename has succeeded the store file is as it was,
/// afterwards it holds the new content, and at the rename the temporary
/// file holds the new content in full.
pub open spec fn intact(
    progress: Progress,
    disk: Disk,
    old: Option<Seq<u8>>,
    content: Seq<u8>,
) -> bool {
    match progress {
        Progress::Writing | Progress::Removing => disk.store == old,
        Progress::Syncing | Progress::Renaming => disk.store == old && disk.temp == Some(content),
        Progress::Done { replaced } => if replaced {
            disk.store == Some(content)
        } else {
            disk.store == old
        },
    }
}

/// Every step keeps the disk intact, whether it succeeds or fails.
pub proof fn lemma_step_keeps_intact(
    progress: Progress,
    succeeded: bool,
    before: Disk,
    after: Disk,
    old: Option<Seq<u8>>,
    content: Seq<u8>,
)
    requires
        intact(progress, before, old, content),
        pending_spec(progress) matches Next::Do(step) && may_follow(
            step,
            succeeded,
            content,
            before,
            after,
        ),
    ensures
        intact(advance_spec(progress, succeeded), after, old, content),
{
}

/// The store file never holds anything but its old content or the new
/// content in full, and it holds the old content as long as the
/// replacement has not ended well.
pub proof fn lemma_never_partial(
    progress: Progress,
    disk: Disk,
    old: Option<Seq<u8>>,
    content: Seq<u8>,
)
    requires
        intact(progress, disk, old, content),
    ensures
        disk.store == old || disk.store == Some(content),
        progress != (Progress::Done { replaced: true }) ==> disk.store == old,
        pending_spec(progress) == Next::Finish(Ok(())) ==> disk.store == Some(content),
{
}

/// The disk after a run of steps, each with its outcome and the disk it
/// left behind, is one that the steps may have led to.
pub open spec fn run_follows(
    progress: Progress,
    disk: Disk,
    content: Seq<u8>,
    run: Seq<(bool, Disk)>,
) -> bool
    decreases run.len(),
{
    if run.len() == 0 {
        true
    } else {
        &&& pending_spec(progress) matches Next::Do(step) && may_follow(
            step,
            run[0].0,
            content,
            disk,
            run[0].1,
        )
        &&& run_follows(advance_spec(progress, run[0].0), run[0].1, content, run.drop_first())
    }
}

/// Where a run of steps ends.
pub open spec fn run_end(progress: Progress, disk: Disk, run: Seq<(bool, Disk)>) -> (Progress, Disk)
    decreases run.len(),
{
    if run.len() == 0 {
        (progress, disk)
    } else {
        run_end(advance_spec(progress, run[0].0), run[0].1, run.drop_first())
    }
}

/// However far a replacement gets and whichever steps fail, the store
/// file holds its old content unless the replacement has ended well, and
/// then it holds the new content.
pub proof fn lemma_replacement_is_atomic(
    old: Option<Seq<u8>>,
    temp: Option<Seq<u8>>,
    content: Seq<u8>,
    run: Seq<(bool, Disk)>,
)
    requires
        run_follows(Progress::Writing, Disk { store: old, temp }, content, run),
    ensures
        ({
            let (progress, disk) = run_end(Progress::Writing, Disk { store: old, temp }, run);
            if progress == (Progress::Done { replaced: true }) {
                disk.store == Some(content)
            } else {
                disk.store == old
            }
        }),
{
    lemma_run_keeps_intact(Progress::Writing, Disk { store: old, temp }, old, content, run);
}

/// A run of steps keeps the disk intact.
proof fn lemma_run_keeps_intact(
    progress: Progress,
    disk: Disk,
    old: Option<Seq<u8>>,
    content: Seq<u8>,
    run: Seq<(bool, Disk)>,
)
    requires
        intact(progress, disk, old, content),
        run_follows(progress, disk, content, run),
    ensures
        intact(run_end(progress, disk, run).0, run_end(progress, disk, run).1, old, content),
    decreases run.len(),
{
    if run.len() > 0 {
        lemma_step_keeps_intact(progress, run[0].0, disk, run[0].1, old, content);
        lemma_run_keeps_intact(
            advance_spec(progress, run[0].0),
            run[0].1,
            old,
            content,
            run.drop_first(),
        );
    }
}

/// The start of a replacement.
pub fn begin() -> (progress: Progress)
    ensures
        progress == Progress::Writing,
{
    Progress::Writing
}

/// What the caller is to do at this point.
pub fn pending(progress: Progress) -> (next: Next)
    ensures
        next == pending_spec(progress),
{
    match progress {
        Progress::Writing => Next::Do(Step::WriteTemp),
        Progress::Syncing => Next::Do(Step::SyncTemp),
        Progress::Renaming => Next::Do(Step::RenameTemp),
        Progress::Removing => Next::Do(Step::RemoveTemp),
        Progress::Done { replaced } => if replaced {
            Next::Finish(Ok(()))
        } else {
            Next::Finish(Err(StoreError::IOFailure))
        },
    }
}

/// Takes the outcome of the pending step and moves on: after a success
/// to the next step, after a failure to the removal of the temporary file
/// and from there to the end.
pub fn advance(progress: Progress, succeeded: bool) -> (next: Progress)
    ensures
        next == advance_spec(progress, succeeded),
{
    match progress {
        Progress::Writing => if succeeded {
            Progress::Syncing
        } else {
            Progress::Removing
        },
        Progress::Syncing => if succeeded {
            Progress::Renaming
        } else {
            Progress::Removing
        },
        Progress::Renaming => if succeeded {
            Progress::Done { replaced: true }
        } else {
            Progress::Removing
        },
        Progress::Removing => Progress::Done { replaced: false },
        Progress::Done { replaced } => Progress::Done { replaced },
    }
}

} // verus!
