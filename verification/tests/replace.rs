use clog_journal::replace::{advance, begin, pending, Next, Progress, Step};
use clog_journal::store::StoreError;

struct Disk {
    store: Option<Vec<u8>>,
    temp: Option<Vec<u8>>,
}

fn perform(disk: &mut Disk, step: Step, content: &[u8], fail: Option<Step>) -> bool {
    let succeeds = fail != Some(step);
    match step {
        Step::WriteTemp => {
            if succeeds {
                disk.temp = Some(content.to_vec());
            } else {
                disk.temp = Some(content[..content.len() / 2].to_vec());
            }
        }
        Step::SyncTemp => {}
        Step::RenameTemp => {
            if succeeds {
                disk.store = disk.temp.take();
            }
        }
        Step::RemoveTemp => {
            if succeeds {
                disk.temp = None;
            }
        }
    }
    succeeds
}

fn replace(disk: &mut Disk, content: &[u8], fail: Option<Step>) -> (Result<(), StoreError>, Vec<Step>) {
    let mut progress = begin();
    let mut steps = Vec::new();
    loop {
        match pending(progress) {
            Next::Do(step) => {
                steps.push(step);
                let succeeded = perform(disk, step, content, fail);
                progress = advance(progress, succeeded);
            }
            Next::Finish(result) => return (result, steps),
        }
    }
}

fn old_disk() -> Disk {
    Disk { store: Some(b"old content".to_vec()), temp: None }
}

#[test]
fn a_replacement_writes_syncs_and_renames() {
    let mut disk = old_disk();
    let (result, steps) = replace(&mut disk, b"new content", None);
    assert_eq!(result, Ok(()));
    assert_eq!(steps, vec![Step::WriteTemp, Step::SyncTemp, Step::RenameTemp]);
    assert_eq!(disk.store, Some(b"new content".to_vec()));
    assert_eq!(disk.temp, None);
}

#[test]
fn a_failed_write_leaves_the_store_file() {
    let mut disk = old_disk();
    let (result, steps) = replace(&mut disk, b"new content", Some(Step::WriteTemp));
    assert_eq!(result, Err(StoreError::IOFailure));
    assert_eq!(steps, vec![Step::WriteTemp, Step::RemoveTemp]);
    assert_eq!(disk.store, Some(b"old content".to_vec()));
    assert_eq!(disk.temp, None);
}

#[test]
fn a_failure_between_write_and_rename_leaves_the_store_file() {
    let mut disk = old_disk();
    let (result, steps) = replace(&mut disk, b"new content", Some(Step::SyncTemp));
    assert_eq!(result, Err(StoreError::IOFailure));
    assert_eq!(steps, vec![Step::WriteTemp, Step::SyncTemp, Step::RemoveTemp]);
    assert_eq!(disk.store, Some(b"old content".to_vec()));
    assert_eq!(disk.temp, None);
}

#[test]
fn a_failed_rename_leaves_the_store_file() {
    let mut disk = old_disk();
    let (result, steps) = replace(&mut disk, b"new content", Some(Step::RenameTemp));
    assert_eq!(result, Err(StoreError::IOFailure));
    assert_eq!(steps, vec![Step::WriteTemp, Step::SyncTemp, Step::RenameTemp, Step::RemoveTemp]);
    assert_eq!(disk.store, Some(b"old content".to_vec()));
}

#[test]
fn an_interruption_before_the_rename_leaves_the_store_file() {
    for stop_after in 0..3 {
        let mut disk = old_disk();
        let mut progress = begin();
        for _ in 0..stop_after {
            if let Next::Do(step) = pending(progress) {
                if step == Step::RenameTemp {
                    break;
                }
                let succeeded = perform(&mut disk, step, b"new content", None);
                progress = advance(progress, succeeded);
            }
        }
        assert_eq!(disk.store, Some(b"old content".to_vec()));
    }
}

#[test]
fn a_replacement_makes_a_store_file_where_none_was() {
    let mut disk = Disk { store: None, temp: None };
    let (result, _) = replace(&mut disk, b"new content", None);
    assert_eq!(result, Ok(()));
    assert_eq!(disk.store, Some(b"new content".to_vec()));
}

#[test]
fn the_end_is_final() {
    assert_eq!(advance(Progress::Done { replaced: true }, false), Progress::Done { replaced: true });
    assert_eq!(advance(Progress::Done { replaced: false }, true), Progress::Done { replaced: false });
    assert_eq!(pending(Progress::Done { replaced: true }), Next::Finish(Ok(())));
    assert_eq!(
        pending(Progress::Done { replaced: false }),
        Next::Finish(Err(StoreError::IOFailure))
    );
    assert_eq!(advance(Progress::Removing, false), Progress::Done { replaced: false });
}
