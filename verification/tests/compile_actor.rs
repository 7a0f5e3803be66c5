use reflexo_typst::compile::{
    no_reason, reason_by_entry_change, reason_by_fs, reason_by_mem, should_compile, CompileReasons,
    CompileStart, CompileState, MemoryDecision, UpstreamTag,
};

fn paths(v: &[&str]) -> Vec<String> {
    v.iter().map(|s| s.to_string()).collect()
}

#[test]
fn reasons_combine() {
    let mut r = no_reason();
    assert!(!r.any());
    r.see(reason_by_mem());
    r.see(reason_by_fs());
    assert!(r.any());
    assert_eq!(r, CompileReasons { by_memory_events: true, by_fs_events: true, by_entry_update: false });
    r.see(reason_by_entry_change());
    assert!(r.by_entry_update);
    assert!(should_compile(no_reason(), true));
    assert!(!should_compile(no_reason(), false));
    assert!(should_compile(reason_by_fs(), false));
}

#[test]
fn busy_compiler_keeps_reasons_for_later() {
    let mut st = CompileState::new(false);
    assert_eq!(st.logical_tick, 1);
    assert_eq!(st.run_compile(reason_by_entry_change()), CompileStart::Start(reason_by_entry_change()));
    assert!(st.compiling);
    assert_eq!(st.run_compile(reason_by_mem()), CompileStart::Busy(reason_by_mem()));
    assert_eq!(st.run_compile(reason_by_fs()), CompileStart::Busy(CompileReasons {
        by_memory_events: true,
        by_fs_events: true,
        by_entry_update: false,
    }));
    assert!(st.process_compile(3));
    assert!(!st.compiling);
    let lagged = st.process_lagged_compile();
    assert!(lagged.by_memory_events && lagged.by_fs_events);
    assert_eq!(st.suspended_reason, no_reason());
    assert_eq!(st.run_compile(lagged), CompileStart::Start(lagged));
}

#[test]
fn suspended_compiler_never_starts() {
    let mut st = CompileState::new(true);
    assert_eq!(st.run_compile(reason_by_fs()), CompileStart::Suspended(reason_by_fs()));
    assert!(!st.compiling);
    assert_eq!(st.suspended_reason, reason_by_fs());
    st.change_entry(false);
    assert_eq!(st.suspended_reason, no_reason());
    assert_eq!(st.run_compile(reason_by_mem()), CompileStart::Start(reason_by_mem()));
}

#[test]
fn older_results_are_not_committed() {
    let mut st = CompileState::new(false);
    assert!(st.process_compile(5));
    assert_eq!(st.committed_revision, 5);
    assert!(!st.process_compile(5));
    assert!(!st.process_compile(4));
    assert_eq!(st.committed_revision, 5);
    assert!(st.process_compile(6));
}

#[test]
fn memory_edits_apply_at_once_when_nothing_is_invalidated() {
    let mut st = CompileState::new(false);
    let (d, r) = st.process_memory(false, &paths(&[]), &paths(&["a.typ", "b.typ"]));
    assert!(matches!(d, MemoryDecision::ApplyNow));
    assert_eq!(r, reason_by_mem());
    assert_eq!(st.estimated_shadow_files.len(), 2);
    assert_eq!(st.dirty_shadow_logical_tick, 0);
}

#[test]
fn removing_a_shadow_goes_upstream() {
    let mut st = CompileState::new(false);
    st.process_memory(false, &paths(&[]), &paths(&["a.typ", "b.typ"]));
    st.tick();
    let (d, r) = st.process_memory(false, &paths(&["a.typ"]), &paths(&[]));
    assert_eq!(r, no_reason());
    match d {
        MemoryDecision::SendUpstream { invalidates, logical_tick } => {
            assert_eq!(invalidates, paths(&["a.typ"]));
            assert_eq!(logical_tick, 2);
        }
        MemoryDecision::ApplyNow => panic!("expected an upstream update"),
    }
    assert_eq!(st.dirty_shadow_logical_tick, 2);
    assert_eq!(st.estimated_shadow_files, paths(&["b.typ"]));
    // While the invalidation is pending, even a harmless edit goes upstream.
    st.tick();
    let (d, _) = st.process_memory(false, &paths(&[]), &paths(&["c.typ"]));
    match d {
        MemoryDecision::SendUpstream { invalidates, logical_tick } => {
            assert!(invalidates.is_empty());
            assert_eq!(logical_tick, 3);
        }
        MemoryDecision::ApplyNow => panic!("expected an upstream update"),
    }
    // The answer to the latest edit cleans the shadow.
    assert_eq!(st.process_fs(UpstreamTag::Known(2)), reason_by_fs());
    assert_eq!(st.dirty_shadow_logical_tick, 3);
    assert_eq!(st.process_fs(UpstreamTag::Known(3)), reason_by_fs());
    assert_eq!(st.dirty_shadow_logical_tick, 0);
    assert_eq!(st.process_fs(UpstreamTag::Unknown), reason_by_mem());
    assert_eq!(st.process_fs(UpstreamTag::NotUpstream), reason_by_fs());
}

#[test]
fn a_sync_replaces_every_shadow() {
    let mut st = CompileState::new(false);
    st.process_memory(false, &paths(&[]), &paths(&["a.typ", "b.typ"]));
    let (d, _) = st.process_memory(true, &paths(&[]), &paths(&["b.typ", "c.typ"]));
    match d {
        MemoryDecision::SendUpstream { invalidates, .. } => assert_eq!(invalidates, paths(&["a.typ"])),
        MemoryDecision::ApplyNow => panic!("expected an upstream update"),
    }
    let mut now = st.estimated_shadow_files.clone();
    now.sort();
    assert_eq!(now, paths(&["b.typ", "c.typ"]));
}

#[test]
fn inserting_a_path_twice_keeps_it_once() {
    let mut st = CompileState::new(false);
    st.process_memory(false, &paths(&[]), &paths(&["a.typ", "a.typ"]));
    assert_eq!(st.estimated_shadow_files, paths(&["a.typ"]));
}
