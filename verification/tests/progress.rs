use cirrust::progress::{push_activity, push_capped, Aggregator, Direction, Note, SyncEvent, ACTIVITY_CAP};
use std::collections::VecDeque;

fn feed(a: &mut Aggregator, ev: SyncEvent) -> Option<Note> {
    assert!(a.fits_exec(&ev));
    a.apply(ev)
}

#[test]
fn a_run_is_folded_into_the_snapshot() {
    let mut a = Aggregator::new();
    assert!(feed(&mut a, SyncEvent::SessionReset).is_none());
    assert!(a.progress.active);
    assert_eq!(a.progress.phase, "scanning");
    feed(&mut a, SyncEvent::ScanProgress { folder: "/Music".into(), entries: 42 });
    assert_eq!(a.progress.scanned, 42);
    assert_eq!(a.progress.current_file, "/Music");
    feed(&mut a, SyncEvent::SessionPlan { files: 2, bytes: 300 });
    assert_eq!(a.progress.phase, "transferring");
    assert_eq!((a.progress.files_total, a.progress.bytes_total), (2, 300));

    feed(&mut a, SyncEvent::FileStart { path: "b.bin".into(), dir: Direction::Upload, total: 200 });
    feed(&mut a, SyncEvent::FileStart { path: "a.bin".into(), dir: Direction::Download, total: 100 });
    feed(&mut a, SyncEvent::FileProgress { path: "b.bin".into(), done: 50, total: 200 });
    assert_eq!(a.progress.bytes_done, 50);
    // A repeated report of the same amount adds nothing.
    feed(&mut a, SyncEvent::FileProgress { path: "b.bin".into(), done: 50, total: 200 });
    assert_eq!(a.progress.bytes_done, 50);
    a.snapshot_files();
    let paths: Vec<&str> = a.progress.active_files.iter().map(|f| f.path.as_str()).collect();
    assert_eq!(paths, vec!["a.bin", "b.bin"]);
    assert_eq!(a.progress.active_files[1].direction, "upload");

    let note = feed(&mut a, SyncEvent::FileDone { path: "b.bin".into(), dir: Direction::Upload, size: 200 }).unwrap();
    assert_eq!(note.kind, "uploaded");
    assert_eq!(note.size, 200);
    assert_eq!((a.progress.files_done, a.progress.bytes_done), (1, 200));

    // An aborted transfer gives back what it had counted.
    feed(&mut a, SyncEvent::FileProgress { path: "a.bin".into(), done: 40, total: 100 });
    assert_eq!(a.progress.bytes_done, 240);
    assert!(feed(&mut a, SyncEvent::FileAborted { path: "a.bin".into() }).is_none());
    assert_eq!(a.progress.bytes_done, 200);

    let n = feed(&mut a, SyncEvent::Deleted { path: "old.txt".into(), remote: true }).unwrap();
    assert_eq!(n.kind, "deleted");
    let n = feed(&mut a, SyncEvent::Error { path: "x".into(), message: "boom".into() }).unwrap();
    assert_eq!(n.kind, "error");
    assert_eq!(n.message.as_deref(), Some("boom"));

    assert_eq!(a.tick_delta(), 200);
    assert_eq!(a.tick_delta(), 0);
    a.set_speed(2048);
    assert_eq!(a.progress.speed, 2048);
    assert_eq!(a.progress.eta_secs, Some(0));

    feed(&mut a, SyncEvent::SessionEnd);
    assert!(!a.progress.active);
    a.set_speed(4096);
    assert_eq!(a.progress.speed, 0);
    assert_eq!(a.progress.eta_secs, None);
}

#[test]
fn an_overflowing_plan_does_not_fit() {
    let mut a = Aggregator::new();
    feed(&mut a, SyncEvent::SessionPlan { files: u64::MAX, bytes: 1 });
    assert!(!a.fits_exec(&SyncEvent::SessionPlan { files: 1, bytes: 0 }));
}

#[test]
fn activity_log_is_capped() {
    let mut log: VecDeque<u32> = VecDeque::new();
    for i in 0..(ACTIVITY_CAP as u32 + 5) {
        push_capped(&mut log, i);
    }
    assert_eq!(log.len(), ACTIVITY_CAP);
    assert_eq!(log.front(), Some(&5));
    assert_eq!(log.back(), Some(&(ACTIVITY_CAP as u32 + 4)));

    let mut acts = VecDeque::new();
    push_activity(&mut acts, Note { kind: "uploaded".into(), path: "a".into(), size: 3, message: None });
    assert_eq!(acts.len(), 1);
    assert_eq!(acts[0].kind, "uploaded");
    assert!(!acts[0].time.is_empty());
}

#[test]
fn directions_name_themselves() {
    assert_eq!(Direction::Upload.as_str(), "upload");
    assert_eq!(Direction::Download.as_str(), "download");
    assert_eq!(Direction::Verify.as_str(), "verify");
}
