use reflexo_typst::actor::{HostAction, Interrupt};
use reflexo_typst::compile::{no_reason, reason_by_entry_change, reason_by_fs, reason_by_mem, CompileStart, CompileState, UpstreamTag};

fn paths(v: &[&str]) -> Vec<String> {
    v.iter().map(|s| s.to_string()).collect()
}

#[test]
fn actor_commits_newer_results_only() {
    let mut st = CompileState::new(false);
    let mut reason = no_reason();
    let mut readers = 0usize;
    let a = st.handle(Interrupt::Compiled { revision: 3 }, &mut reason, &mut readers);
    assert!(matches!(a.as_slice(), [HostAction::Commit(3)]));
    assert_eq!((st.committed_revision, st.logical_tick), (3, 2));
    let b = st.handle(Interrupt::Compiled { revision: 2 }, &mut reason, &mut readers);
    assert!(b.is_empty());
    assert_eq!(st.committed_revision, 3);
    assert_eq!(reason, no_reason());
}

#[test]
fn actor_reports_suspension_on_inactive_entry() {
    let mut st = CompileState::new(false);
    let mut reason = no_reason();
    let mut readers = 0usize;
    let a = st.handle(Interrupt::ChangeTask { entry_inactive: Some(true) }, &mut reason, &mut readers);
    assert!(matches!(a.as_slice(), [HostAction::IncrementRevision, HostAction::ReportSuspended]));
    assert!(st.suspended);
    assert_eq!(reason, reason_by_entry_change());
    let b = st.handle(Interrupt::ChangeTask { entry_inactive: None }, &mut reason, &mut readers);
    assert!(matches!(b.as_slice(), [HostAction::IncrementRevision]));
    st.handle(Interrupt::CurrentRead, &mut reason, &mut readers);
    assert_eq!(readers, 1);
    assert_eq!(st.end_round(reason, readers > 0), Some(CompileStart::Suspended(reason_by_entry_change())));
}

#[test]
fn actor_memory_edits_apply_or_go_upstream() {
    let mut st = CompileState::new(false);
    let mut reason = no_reason();
    let mut readers = 0usize;
    let a = st.handle(
        Interrupt::Memory { is_sync: false, removes: vec![], inserts: paths(&["a.typ"]) },
        &mut reason,
        &mut readers,
    );
    match a.as_slice() {
        [HostAction::IncrementRevision, HostAction::ApplyMemory { is_sync: false, removes, inserts }] => {
            assert!(removes.is_empty());
            assert_eq!(inserts, &paths(&["a.typ"]));
        }
        _ => panic!("expected the edit to apply at once"),
    }
    assert_eq!(reason, reason_by_mem());
    let mut reason = no_reason();
    let b = st.handle(
        Interrupt::Memory { is_sync: false, removes: paths(&["a.typ"]), inserts: vec![] },
        &mut reason,
        &mut readers,
    );
    match b.as_slice() {
        [HostAction::SendUpstream { invalidates, logical_tick }] => {
            assert_eq!(invalidates, &paths(&["a.typ"]));
            assert_eq!(*logical_tick, 3);
        }
        _ => panic!("expected an upstream update"),
    }
    assert_eq!(st.dirty_shadow_logical_tick, 3);
    assert_eq!(reason, no_reason());
    let c = st.handle(Interrupt::Fs { upstream: UpstreamTag::Known(3) }, &mut reason, &mut readers);
    assert!(matches!(c.as_slice(), [HostAction::IncrementRevision, HostAction::ApplyFs]));
    assert_eq!(st.dirty_shadow_logical_tick, 0);
    assert_eq!(reason, reason_by_fs());
}

#[test]
fn actor_settles_and_idle_rounds_do_nothing() {
    let mut st = CompileState::new(false);
    let mut reason = no_reason();
    let mut readers = 0usize;
    let a = st.handle(Interrupt::Settle, &mut reason, &mut readers);
    assert!(matches!(a.as_slice(), [HostAction::Settle]));
    assert_eq!(st.logical_tick, 2);
    assert_eq!(st.end_round(no_reason(), false), None);
    assert!(!st.compiling);
    assert_eq!(st.end_round(no_reason(), true), Some(CompileStart::Start(no_reason())));
    assert!(st.compiling);
}

#[test]
fn actor_reuses_a_snapshot_until_the_world_changes() {
    let mut st = CompileState::new(false);
    let mut reason = no_reason();
    let mut readers = 0usize;
    assert_eq!((st.revision, st.snapshot_revision), (1, None));
    let a = st.handle(Interrupt::SnapshotRead, &mut reason, &mut readers);
    assert!(matches!(a.as_slice(), [HostAction::AnswerSnapshot { fresh: true }]));
    assert_eq!(st.snapshot_revision, Some(1));
    let b = st.handle(Interrupt::SnapshotRead, &mut reason, &mut readers);
    assert!(matches!(b.as_slice(), [HostAction::AnswerSnapshot { fresh: false }]));
    st.handle(Interrupt::Compile, &mut reason, &mut readers);
    assert_eq!(st.revision, 2);
    let c = st.handle(Interrupt::SnapshotRead, &mut reason, &mut readers);
    assert!(matches!(c.as_slice(), [HostAction::AnswerSnapshot { fresh: true }]));
    assert_eq!(st.snapshot_revision, Some(2));
    assert_eq!(reason, reason_by_entry_change());
}
