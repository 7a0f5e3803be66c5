use vstd::prelude::*;

use crate::compile::{
    compile_answer, kept_after, none_reason, path_set, reason_by_entry_change, reason_by_fs_spec,
    reason_by_mem_spec, should_compile, union, any_reason, CompileReasons, CompileStart, CompileState,
    MemoryDecision, UpstreamTag, no_dup,
};

verus! {

/// An event for the compiler actor.
#[derive(Debug)]
pub enum Interrupt {
    /// Compile anyway.
    Compile,
    /// A compilation of this revision finished.
    Compiled { revision: usize },
    /// The entry changed; `Some(inactive)` when a new entry was given.
    ChangeTask { entry_inactive: Option<bool> },
    /// A reader wants a snapshot of the world now, without waiting for a
    /// compilation.
    SnapshotRead,
    /// A reader wants the result of a compilation at or after now.
    CurrentRead,
    /// Memory files changed.
    Memory { is_sync: bool, removes: Vec<String>, inserts: Vec<String> },
    /// A file system event, possibly answering an earlier memory edit.
    Fs { upstream: UpstreamTag },
    /// Stop the actor.
    Settle,
}

/// What the actor asks of the world around it, in order.
#[derive(Debug)]
pub enum HostAction {
    /// Bump the world's revision (after applying a new entry, if any).
    IncrementRevision,
    /// Report that the compiler is suspended.
    ReportSuspended,
    /// Take a finished compilation of this revision.
    Commit(usize),
    /// Apply a memory edit to the world.
    ApplyMemory { is_sync: bool, removes: Vec<String>, inserts: Vec<String> },
    /// Send invalidated paths upstream, tagged with a logical tick.
    SendUpstream { invalidates: Vec<String>, logical_tick: usize },
    /// Apply a file system event to the world.
    ApplyFs,
    /// Answer a snapshot reader: with a snapshot of the world taken now,
    /// which is kept for later readers, when `fresh`; otherwise with the
    /// snapshot kept.
    AnswerSnapshot { fresh: bool },
    /// Stop the actor.
    Settle,
}

/// `b` is `a` one tick later, with the given decision state.
pub open spec fn stepped(
    a: CompileState,
    b: CompileState,
    dirty: usize,
    shadow: Set<Seq<char>>,
    suspended: bool,
    compiling: bool,
    kept: CompileReasons,
    committed: usize,
) -> bool {
    &&& b.logical_tick == a.logical_tick + 1
    &&& b.wf()
    &&& b.dirty_shadow_logical_tick == dirty
    &&& b.shadow() == shadow
    &&& b.suspended == suspended
    &&& b.compiling == compiling
    &&& b.suspended_reason == kept
    &&& b.committed_revision == committed
}

/// The world's revision in `b` is that of `a`, bumped once when `bumped`,
/// and the kept snapshot is the same.
pub open spec fn revision_kept(a: CompileState, b: CompileState, bumped: bool) -> bool {
    &&& b.revision == a.revision + (if bumped {
        1int
    } else {
        0int
    })
    &&& b.snapshot_revision == a.snapshot_revision
}

/// Whether the kept snapshot cannot answer a reader: there is none, or it
/// was taken before the world's current revision.
pub open spec fn snapshot_stale(a: CompileState) -> bool {
    match a.snapshot_revision {
        Some(r) => r < a.revision,
        None => true,
    }
}

/// `b` is `a` one tick later and otherwise unchanged.
pub open spec fn only_ticked(a: CompileState, b: CompileState) -> bool {
    stepped(a, b, a.dirty_shadow_logical_tick, a.shadow(), a.suspended, a.compiling, a.suspended_reason, a.committed_revision)
}

/// The paths that an edit of memory files stops shadowing.
pub open spec fn invalidated(shadow: Set<Seq<char>>, is_sync: bool, removes: Seq<String>, inserts: Seq<String>) -> Set<Seq<char>> {
    (if is_sync {
        shadow
    } else {
        Set::<Seq<char>>::empty()
    }).union(path_set(removes)).difference(path_set(inserts))
}

/// The shadowed paths after an edit of memory files.
pub open spec fn shadow_after(shadow: Set<Seq<char>>, is_sync: bool, removes: Seq<String>, inserts: Seq<String>) -> Set<Seq<char>> {
    (if is_sync {
        Set::<Seq<char>>::empty()
    } else {
        shadow
    }).difference(path_set(removes)).union(path_set(inserts))
}

/// What handling one event does: the actions asked of the world, the
/// state after it, the reasons gathered for this round and the readers
/// waiting. Every event advances the logical clock by one.
pub open spec fn handled(
    a: CompileState,
    b: CompileState,
    event: Interrupt,
    reason0: CompileReasons,
    reason1: CompileReasons,
    readers0: usize,
    readers1: usize,
    actions: Seq<HostAction>,
) -> bool {
    match event {
        Interrupt::Settle => {
            &&& actions == seq![HostAction::Settle]
            &&& only_ticked(a, b)
            &&& revision_kept(a, b, false)
            &&& reason1 == reason0
            &&& readers1 == readers0
        },
        Interrupt::SnapshotRead => {
            &&& actions == seq![HostAction::AnswerSnapshot { fresh: snapshot_stale(a) }]
            &&& only_ticked(a, b)
            &&& b.revision == a.revision
            &&& b.snapshot_revision == (if snapshot_stale(a) {
                Some(a.revision)
            } else {
                a.snapshot_revision
            })
            &&& reason1 == reason0
            &&& readers1 == readers0
        },
        Interrupt::CurrentRead => {
            &&& actions == Seq::<HostAction>::empty()
            &&& only_ticked(a, b)
            &&& revision_kept(a, b, false)
            &&& reason1 == reason0
            &&& readers1 == readers0 + 1
        },
        Interrupt::Compile => {
            &&& actions == seq![HostAction::IncrementRevision]
            &&& only_ticked(a, b)
            &&& revision_kept(a, b, true)
            &&& reason1 == union(reason0, CompileReasons { by_entry_update: true, ..none_reason() })
            &&& readers1 == readers0
        },
        Interrupt::ChangeTask { entry_inactive } => {
            &&& actions == (match entry_inactive {
                Some(true) => seq![HostAction::IncrementRevision, HostAction::ReportSuspended],
                _ => seq![HostAction::IncrementRevision],
            })
            &&& (match entry_inactive {
                Some(inactive) => stepped(
                    a,
                    b,
                    a.dirty_shadow_logical_tick,
                    a.shadow(),
                    inactive,
                    a.compiling,
                    none_reason(),
                    a.committed_revision,
                ),
                None => only_ticked(a, b),
            })
            &&& revision_kept(a, b, true)
            &&& reason1 == union(reason0, CompileReasons { by_entry_update: true, ..none_reason() })
            &&& readers1 == readers0
        },
        Interrupt::Compiled { revision } => {
            &&& actions == (if a.committed_revision < revision {
                seq![HostAction::Commit(revision)]
            } else {
                Seq::<HostAction>::empty()
            })
            &&& stepped(
                a,
                b,
                a.dirty_shadow_logical_tick,
                a.shadow(),
                a.suspended,
                false,
                none_reason(),
                if a.committed_revision < revision {
                    revision
                } else {
                    a.committed_revision
                },
            )
            &&& revision_kept(a, b, false)
            &&& reason1 == union(reason0, a.suspended_reason)
            &&& readers1 == readers0
        },
        Interrupt::Memory { is_sync, removes, inserts } => {
            &&& b.logical_tick == a.logical_tick + 1
            &&& b.wf()
            &&& b.shadow() == shadow_after(a.shadow(), is_sync, removes@, inserts@)
            &&& b.suspended == a.suspended
            &&& b.compiling == a.compiling
            &&& b.suspended_reason == a.suspended_reason
            &&& b.committed_revision == a.committed_revision
            &&& readers1 == readers0
            &&& if invalidated(a.shadow(), is_sync, removes@, inserts@).is_empty() && a.dirty_shadow_logical_tick
                == 0 {
                &&& actions == seq![
                    HostAction::IncrementRevision,
                    HostAction::ApplyMemory { is_sync, removes, inserts },
                ]
                &&& b.dirty_shadow_logical_tick == 0
                &&& revision_kept(a, b, true)
                &&& reason1 == union(reason0, reason_by_mem_spec())
            } else {
                &&& actions.len() == 1
                &&& actions[0] matches HostAction::SendUpstream { invalidates, logical_tick }
                &&& path_set(invalidates@) == invalidated(a.shadow(), is_sync, removes@, inserts@)
                &&& no_dup(invalidates@)
                &&& logical_tick == a.logical_tick + 1
                &&& b.dirty_shadow_logical_tick == a.logical_tick + 1
                &&& revision_kept(a, b, false)
                &&& reason1 == reason0
            }
        },
        Interrupt::Fs { upstream } => {
            &&& actions == seq![HostAction::IncrementRevision, HostAction::ApplyFs]
            &&& revision_kept(a, b, true)
            &&& stepped(
                a,
                b,
                match upstream {
                    UpstreamTag::Known(t) => if t == a.dirty_shadow_logical_tick {
                        0
                    } else {
                        a.dirty_shadow_logical_tick
                    },
                    _ => a.dirty_shadow_logical_tick,
                },
                a.shadow(),
                a.suspended,
                a.compiling,
                a.suspended_reason,
                a.committed_revision,
            )
            &&& reason1 == union(
                reason0,
                if upstream == UpstreamTag::Unknown {
                    reason_by_mem_spec()
                } else {
                    reason_by_fs_spec()
                },
            )
            &&& readers1 == readers0
        },
    }
}

impl CompileState {
    /// Handles one event of a round: advances the clock, decides, and says
    /// what the world must do. `reason` gathers why the round should end in
    /// a compilation, and `readers` counts the readers waiting for one.
    pub fn handle(&mut self, event: Interrupt, reason: &mut CompileReasons, readers: &mut usize) -> (actions: Vec<
        HostAction,
    >)
        requires
            old(self).wf(),
            old(self).logical_tick < usize::MAX,
            old(self).revision < usize::MAX,
            *old(readers) < usize::MAX,
        ensures
            handled(*old(self), *final(self), event, *old(reason), *final(reason), *old(readers), *final(readers), actions@),
            event matches Interrupt::ChangeTask { entry_inactive: Some(x) } ==> final(self).suspended == x,
            event matches Interrupt::ChangeTask { entry_inactive: None } ==> final(self).suspended == old(self).suspended,
            !(event is ChangeTask) ==> final(self).suspended == old(self).suspended,
    {
        self.tick();
        let mut actions: Vec<HostAction> = Vec::new();
        match event {
            Interrupt::Settle => {
                actions.push(HostAction::Settle);
                assert(actions@ =~= seq![HostAction::Settle]);
            },
            Interrupt::SnapshotRead => {
                let fresh = match self.snapshot_revision {
                    Some(r) => r < self.revision,
                    None => true,
                };
                if fresh {
                    self.snapshot_revision = Some(self.revision);
                }
                actions.push(HostAction::AnswerSnapshot { fresh });
                assert(actions@ =~= seq![HostAction::AnswerSnapshot { fresh }]);
            },
            Interrupt::CurrentRead => {
                *readers = *readers + 1;
            },
            Interrupt::Compile => {
                self.revision = self.revision + 1;
                actions.push(HostAction::IncrementRevision);
                assert(actions@ =~= seq![HostAction::IncrementRevision]);
                reason.see(reason_by_entry_change());
            },
            Interrupt::ChangeTask { entry_inactive } => {
                self.revision = self.revision + 1;
                actions.push(HostAction::IncrementRevision);
                if let Some(inactive) = entry_inactive {
                    self.change_entry(inactive);
                    if self.suspended {
                        actions.push(HostAction::ReportSuspended);
                        assert(actions@ =~= seq![HostAction::IncrementRevision, HostAction::ReportSuspended]);
                    }
                }
                assert(entry_inactive != Some(true) ==> actions@ =~= seq![HostAction::IncrementRevision]);
                reason.see(reason_by_entry_change());
            },
            Interrupt::Compiled { revision } => {
                if self.process_compile(revision) {
                    actions.push(HostAction::Commit(revision));
                    assert(actions@ =~= seq![HostAction::Commit(revision)]);
                }
                let lagged = self.process_lagged_compile();
                reason.see(lagged);
            },
            Interrupt::Memory { is_sync, removes, inserts } => {
                let (decision, r) = self.process_memory(is_sync, &removes, &inserts);
                match decision {
                    MemoryDecision::ApplyNow => {
                        self.revision = self.revision + 1;
                        actions.push(HostAction::IncrementRevision);
                        actions.push(HostAction::ApplyMemory { is_sync, removes, inserts });
                        assert(actions@ =~= seq![
                            HostAction::IncrementRevision,
                            HostAction::ApplyMemory { is_sync, removes, inserts },
                        ]);
                    },
                    MemoryDecision::SendUpstream { invalidates, logical_tick } => {
                        actions.push(HostAction::SendUpstream { invalidates, logical_tick });
                    },
                }
                reason.see(r);
            },
            Interrupt::Fs { upstream } => {
                self.revision = self.revision + 1;
                actions.push(HostAction::IncrementRevision);
                let r = self.process_fs(upstream);
                reason.see(r);
                actions.push(HostAction::ApplyFs);
                assert(actions@ =~= seq![HostAction::IncrementRevision, HostAction::ApplyFs]);
            },
        }
        actions
    }

    /// Ends a round: a compilation is asked for when the round gathered a
    /// reason or a reader waits, and the answer is returned; otherwise
    /// nothing changes.
    pub fn end_round(&mut self, reason: CompileReasons, has_waiting_reads: bool) -> (r: Option<CompileStart>)
        ensures
            match r {
                Some(start) => {
                    &&& (any_reason(reason) || has_waiting_reads)
                    &&& start == compile_answer(old(self).suspended, old(self).compiling, old(self).suspended_reason, reason)
                    &&& final(self).suspended_reason == kept_after(
                        old(self).suspended,
                        old(self).compiling,
                        old(self).suspended_reason,
                        reason,
                    )
                    &&& final(self).compiling == (old(self).compiling || !old(self).suspended)
                    &&& final(self).suspended == old(self).suspended
                    &&& final(self).logical_tick == old(self).logical_tick
                    &&& final(self).dirty_shadow_logical_tick == old(self).dirty_shadow_logical_tick
                    &&& final(self).committed_revision == old(self).committed_revision
                    &&& final(self).revision == old(self).revision
                    &&& final(self).snapshot_revision == old(self).snapshot_revision
                    &&& final(self).wf() == old(self).wf()
                    &&& final(self).shadow() == old(self).shadow()
                },
                None => !(any_reason(reason) || has_waiting_reads) && *final(self) == *old(self),
            },
    {
        if should_compile(reason, has_waiting_reads) {
            Some(self.run_compile(reason))
        } else {
            None
        }
    }
}

/// A new entry decides suspension on its own: after the entry changes to
/// one that is inactive or not, the compiler is suspended exactly when the
/// new entry is inactive, whatever it was before; the reasons kept while
/// suspended are dropped, suspension is reported exactly when the new entry
/// is inactive, and the world's revision is bumped first.
pub proof fn lemma_change_entry_decides_suspension(
    a: CompileState,
    b: CompileState,
    inactive: bool,
    reason0: CompileReasons,
    reason1: CompileReasons,
    readers0: usize,
    readers1: usize,
    actions: Seq<HostAction>,
)
    requires
        handled(
            a,
            b,
            Interrupt::ChangeTask { entry_inactive: Some(inactive) },
            reason0,
            reason1,
            readers0,
            readers1,
            actions,
        ),
    ensures
        b.suspended == inactive,
        b.suspended_reason == none_reason(),
        b.revision == a.revision + 1,
        actions.len() >= 1 && actions[0] == HostAction::IncrementRevision,
        actions.contains(HostAction::ReportSuspended) <==> inactive,
        reason1.by_entry_update,
{
    if !inactive {
        assert(actions == seq![HostAction::IncrementRevision]);
        assert(!actions.contains(HostAction::ReportSuspended)) by {
            if actions.contains(HostAction::ReportSuspended) {
                let k = choose|k: int| 0 <= k < actions.len() && actions[k] == HostAction::ReportSuspended;
                assert(k == 0);
            }
        }
    } else {
        assert(actions[1] == HostAction::ReportSuspended);
    }
}

/// Once the entry is active and no compilation runs, the round that ends
/// with a reason or a waiting reader starts a compilation; while the entry
/// is inactive, no round ever starts one.
pub proof fn lemma_active_entry_compiles(s: CompileState, reason: CompileReasons)
    ensures
        !s.suspended && !s.compiling ==> compile_answer(s.suspended, s.compiling, s.suspended_reason, reason) is Start,
        s.suspended ==> compile_answer(s.suspended, s.compiling, s.suspended_reason, reason) is Suspended,
{
}

} // verus!
