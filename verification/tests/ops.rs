use filescope::ops::{decision_for, totals, Decision, Event, Job, Kind, Phase, Resolution, Worker};

#[test]
fn apply_to_all_answers_later_conflicts() {
    let mut job = Job::new();
    assert_eq!(job.conflict_answer(), None);
    assert_eq!(job.decide(Decision::ReplaceAll, 10, 1), Resolution::Replace);
    assert_eq!(job.conflict_answer(), Some(Decision::Replace));
    assert_eq!(job.decide(Decision::Rename, 10, 1), Resolution::Rename);
    assert_eq!(job.conflict_answer(), Some(Decision::Replace));
    assert_eq!(job.decide(Decision::SkipAll, 5, 2), Resolution::Skip);
    assert_eq!(job.conflict_answer(), Some(Decision::Skip));
}

#[test]
fn skipping_counts_as_progress_and_cancel_stops() {
    let mut job = Job::new();
    assert_eq!(job.decide(Decision::Skip, 7, 3), Resolution::Skip);
    assert_eq!((job.bytes_done, job.items_done), (7, 3));
    assert_eq!(job.decide(Decision::Cancel, 100, 100), Resolution::Stop);
    assert_eq!((job.bytes_done, job.items_done), (7, 3));
    assert_eq!(job.conflict_answer(), None);
}

#[test]
fn tallies_and_totals() {
    let mut job = Job::new();
    job.record(true);
    job.record(true);
    job.record(false);
    job.advance(12, 4);
    assert_eq!((job.ok, job.failed, job.bytes_done, job.items_done), (2, 1, 12, 4));
    // src dir + a.txt + sub dir + b.txt = 4 items, 12 bytes total.
    assert_eq!(totals(&[(0, 1), (5, 1), (0, 1), (7, 1)]), (12, 4));
    assert_eq!(totals(&[]), (0, 0));
    assert_ne!(Kind::Copy, Kind::Move);
}

#[test]
fn keep_both_for_all_sticks() {
    let mut job = Job::new();
    assert_eq!(job.decide(Decision::RenameAll, 3, 1), Resolution::Rename);
    assert_eq!(job.conflict_answer(), Some(Decision::Rename));
    assert_eq!(job.decide(Decision::Rename, 3, 1), Resolution::Rename);
    assert_eq!(job.conflict_answer(), Some(Decision::Rename));
    assert_eq!((job.bytes_done, job.items_done), (0, 0));
}

#[test]
fn dialog_responses_become_decisions() {
    assert_eq!(decision_for("replace", false), Decision::Replace);
    assert_eq!(decision_for("replace", true), Decision::ReplaceAll);
    assert_eq!(decision_for("skip", false), Decision::Skip);
    assert_eq!(decision_for("skip", true), Decision::SkipAll);
    assert_eq!(decision_for("rename", false), Decision::Rename);
    assert_eq!(decision_for("rename", true), Decision::RenameAll);
    assert_eq!(decision_for("cancel", true), Decision::Cancel);
    assert_eq!(decision_for("", false), Decision::Cancel);
}

#[test]
fn a_run_reports_total_first_and_finished_last() {
    let mut run = Worker::new(Kind::Copy, 3);
    match run.start(&[(5, 1), (7, 2), (0, 1)]) {
        Event::Total { bytes, items } => assert_eq!((bytes, items), (12, 4)),
        _ => panic!("a run starts with its total"),
    }
    assert_eq!(run.phase, Phase::Running);
    assert_eq!(run.next_source(false), Some(0));
    run.advance(5, 1);
    run.record(true, Some(("/a/x".to_string(), "/b/x".to_string())));
    assert_eq!(run.next_source(false), Some(1));
    assert_eq!(run.resolve(Decision::Cancel, 7, 2), Resolution::Stop);
    // A Cancel answer stops the run: no later source is handed out.
    assert_eq!(run.next_source(false), None);
    match run.finish() {
        Event::Finished { ok, failed, landed } => {
            assert_eq!((ok, failed), (1, 0));
            assert_eq!(landed, vec![("/a/x".to_string(), "/b/x".to_string())]);
        }
        _ => panic!("a run ends with Finished"),
    }
    assert_eq!(run.phase, Phase::Done);
}

#[test]
fn a_cancelled_or_exhausted_run_hands_out_nothing_more() {
    let mut run = Worker::new(Kind::Delete, 2);
    let _ = run.start(&[(1, 1), (1, 1)]);
    assert_eq!(run.next_source(true), None);
    assert_eq!(run.next_source(false), Some(0));
    run.record(false, None);
    assert_eq!(run.next_source(false), Some(1));
    run.record(true, None);
    assert_eq!(run.next_source(false), None);
    match run.finish() {
        Event::Finished { ok, failed, landed } => {
            assert_eq!((ok, failed), (1, 1));
            assert!(landed.is_empty());
        }
        _ => panic!("a run ends with Finished"),
    }
}

#[test]
fn a_clash_after_apply_to_all_is_answered_without_asking() {
    let mut run = Worker::new(Kind::Move, 3);
    let _ = run.start(&[(1, 1), (1, 1), (1, 1)]);
    assert_eq!(run.next_source(false), Some(0));
    assert_eq!(run.clash(), None);
    assert_eq!(run.resolve(Decision::RenameAll, 1, 1), Resolution::Rename);
    run.record(true, None);
    assert_eq!(run.next_source(false), Some(1));
    assert_eq!(run.clash(), Some(Decision::Rename));
}
