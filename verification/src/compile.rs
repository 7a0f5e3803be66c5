use vstd::prelude::*;

use crate::strings::str_eq;

verus! {

/// Why a compilation is wanted.
#[derive(Debug, Clone, Copy, PartialEq, Eq, Structural)]
pub struct CompileReasons {
    /// Memory files were edited.
    pub by_memory_events: bool,
    /// Files on disk changed.
    pub by_fs_events: bool,
    /// The entry changed.
    pub by_entry_update: bool,
}

/// Both reasons at once.
pub open spec fn union(a: CompileReasons, b: CompileReasons) -> CompileReasons {
    CompileReasons {
        by_memory_events: a.by_memory_events || b.by_memory_events,
        by_fs_events: a.by_fs_events || b.by_fs_events,
        by_entry_update: a.by_entry_update || b.by_entry_update,
    }
}

/// Whether `a` holds every reason that `b` holds.
pub open spec fn includes(a: CompileReasons, b: CompileReasons) -> bool {
    &&& b.by_memory_events ==> a.by_memory_events
    &&& b.by_fs_events ==> a.by_fs_events
    &&& b.by_entry_update ==> a.by_entry_update
}

/// Whether a reason holds anything.
pub open spec fn any_reason(a: CompileReasons) -> bool {
    a.by_memory_events || a.by_fs_events || a.by_entry_update
}

/// No reason at all.
pub open spec fn none_reason() -> CompileReasons {
    CompileReasons { by_memory_events: false, by_fs_events: false, by_entry_update: false }
}

impl CompileReasons {
    /// Adds the reasons of `reason` to these.
    pub fn see(&mut self, reason: CompileReasons)
        ensures
            *final(self) == union(*old(self), reason),
    {
        self.by_memory_events = self.by_memory_events || reason.by_memory_events;
        self.by_fs_events = self.by_fs_events || reason.by_fs_events;
        self.by_entry_update = self.by_entry_update || reason.by_entry_update;
    }

    /// Whether there is any reason.
    pub fn any(&self) -> (r: bool)
        ensures
            r == any_reason(*self),
    {
        self.by_memory_events || self.by_fs_events || self.by_entry_update
    }
}

/// No reason.
pub fn no_reason() -> (r: CompileReasons)
    ensures
        r == none_reason(),
{
    CompileReasons { by_memory_events: false, by_fs_events: false, by_entry_update: false }
}

/// Memory files were edited.
pub fn reason_by_mem() -> (r: CompileReasons)
    ensures
        r == (CompileReasons { by_memory_events: true, ..none_reason() }),
{
    CompileReasons { by_memory_events: true, by_fs_events: false, by_entry_update: false }
}

/// Files on disk changed.
pub fn reason_by_fs() -> (r: CompileReasons)
    ensures
        r == (CompileReasons { by_fs_events: true, ..none_reason() }),
{
    CompileReasons { by_memory_events: false, by_fs_events: true, by_entry_update: false }
}

/// The entry changed.
pub fn reason_by_entry_change() -> (r: CompileReasons)
    ensures
        r == (CompileReasons { by_entry_update: true, ..none_reason() }),
{
    CompileReasons { by_memory_events: false, by_fs_events: false, by_entry_update: true }
}

/// Whether an event loop round ends in a compilation: when it has a reason,
/// or when a reader waits for one.
pub fn should_compile(reason: CompileReasons, has_waiting_reads: bool) -> (r: bool)
    ensures
        r == (any_reason(reason) || has_waiting_reads),
{
    reason.any() || has_waiting_reads
}

/// The paths that a list holds.
pub open spec fn path_set(v: Seq<String>) -> Set<Seq<char>> {
    Set::new(|p: Seq<char>| exists|i: int| 0 <= i < v.len() && #[trigger] v[i]@ == p)
}

/// Whether no path occurs twice in a list.
pub open spec fn no_dup(v: Seq<String>) -> bool {
    forall|i: int, j: int| 0 <= i < j < v.len() ==> (#[trigger] v[i])@ != (#[trigger] v[j])@
}

/// The position of `p` in the list, if it is there.
fn find_path(v: &Vec<String>, p: &str) -> (r: Option<usize>)
    ensures
        match r {
            Some(i) => i < v@.len() && v@[i as int]@ == p@,
            None => !path_set(v@).contains(p@),
        },
{
    let mut i: usize = 0;
    while i < v.len()
        invariant
            i <= v@.len(),
            forall|j: int| 0 <= j < i ==> (#[trigger] v@[j])@ != p@,
        decreases v@.len() - i,
    {
        if str_eq(v[i].as_str(), p) {
            return Some(i);
        }
        i = i + 1;
    }
    None
}

/// Removes a path from a list that holds each path once.
fn remove_path(v: &mut Vec<String>, p: &str)
    requires
        no_dup(old(v)@),
    ensures
        no_dup(final(v)@),
        path_set(final(v)@) == path_set(old(v)@).remove(p@),
{
    match find_path(v, p) {
        Some(i) => {
            let ghost before = v@;
            v.remove(i);
            assert(path_set(v@) =~= path_set(before).remove(p@)) by {
                assert forall|q: Seq<char>| path_set(v@).contains(q) implies path_set(before).remove(p@).contains(q) by {
                    let k = choose|k: int| 0 <= k < v@.len() && #[trigger] v@[k]@ == q;
                    if k < i {
                        assert(before[k]@ == q);
                        assert(q != p@);
                    } else {
                        assert(before[k + 1]@ == q);
                        assert(q != p@);
                    }
                }
                assert forall|q: Seq<char>| path_set(before).remove(p@).contains(q) implies path_set(v@).contains(q) by {
                    let k = choose|k: int| 0 <= k < before.len() && #[trigger] before[k]@ == q;
                    if k < i {
                        assert(v@[k]@ == q);
                    } else {
                        assert(k != i);
                        assert(v@[k - 1]@ == q);
                    }
                }
            }
        },
        None => {
            assert(path_set(v@) =~= path_set(v@).remove(p@));
        },
    }
}

/// Adds a path to a list that holds each path once.
fn insert_path(v: &mut Vec<String>, p: &String)
    requires
        no_dup(old(v)@),
    ensures
        no_dup(final(v)@),
        path_set(final(v)@) == path_set(old(v)@).insert(p@),
{
    match find_path(v, p.as_str()) {
        Some(i) => {
            assert(path_set(v@) =~= path_set(v@).insert(p@));
        },
        None => {
            let ghost before = v@;
            v.push(p.clone());
            assert(v@[before.len() as int]@ == p@);
            assert(path_set(v@) =~= path_set(before).insert(p@)) by {
                assert forall|q: Seq<char>| path_set(v@).contains(q) implies path_set(before).insert(p@).contains(q) by {
                    let k = choose|k: int| 0 <= k < v@.len() && #[trigger] v@[k]@ == q;
                    if k < before.len() {
                        assert(before[k]@ == q);
                    }
                }
                assert forall|q: Seq<char>| path_set(before).insert(p@).contains(q) implies path_set(v@).contains(q) by {
                    if q != p@ {
                        let k = choose|k: int| 0 <= k < before.len() && #[trigger] before[k]@ == q;
                        assert(v@[k]@ == q);
                    }
                }
            }
        },
    }
}

/// How a compilation request was answered.
#[derive(Debug, Clone, Copy, PartialEq, Eq, Structural)]
pub enum CompileStart {
    /// The compiler is suspended: the reason is kept, and waiting readers
    /// get a snapshot taken with it.
    Suspended(CompileReasons),
    /// A compilation is running: the reason is kept for the next one.
    Busy(CompileReasons),
    /// A compilation starts, for the reason given.
    Start(CompileReasons),
}

/// What to do with an edit of memory files.
#[derive(Debug)]
pub enum MemoryDecision {
    /// Apply it at once: nothing shadowed is invalidated.
    ApplyNow,
    /// Send the invalidated paths upstream, tagged with the logical tick,
    /// and apply the edit when the upstream answers.
    SendUpstream { invalidates: Vec<String>, logical_tick: usize },
}

/// What a file-system event says about an earlier edit of memory files.
#[derive(Debug, Clone, Copy, PartialEq, Eq, Structural)]
pub enum UpstreamTag {
    /// The event is no answer to an edit.
    NotUpstream,
    /// The event answers the edit sent at this logical tick.
    Known(usize),
    /// The event is an answer whose edit cannot be recovered.
    Unknown,
}

/// The decisions of the compiler actor: its logical clock, the memory files
/// it believes shadow the disk, and whether and why it compiles.
#[derive(Debug)]
pub struct CompileState {
    /// The current logical tick.
    pub logical_tick: usize,
    /// The tick of the last edit whose invalidation is pending, or `0`.
    pub dirty_shadow_logical_tick: usize,
    /// The memory files believed to shadow the disk, each once.
    pub estimated_shadow_files: Vec<String>,
    /// Whether the entry is inactive.
    pub suspended: bool,
    /// Whether a compilation is running.
    pub compiling: bool,
    /// The reasons kept for the next compilation.
    pub suspended_reason: CompileReasons,
    /// The newest revision whose result was taken.
    pub committed_revision: usize,
    /// The revision of the world, bumped whenever the world changes.
    pub revision: usize,
    /// The revision at which the snapshot kept for readers was taken, if
    /// one is kept.
    pub snapshot_revision: Option<usize>,
}

impl CompileState {
    /// Whether each shadowed path is listed once.
    pub open spec fn wf(&self) -> bool {
        no_dup(self.estimated_shadow_files@)
    }

    /// The memory files believed to shadow the disk.
    pub open spec fn shadow(&self) -> Set<Seq<char>> {
        path_set(self.estimated_shadow_files@)
    }

    /// A fresh actor: clock and revision at `1`, nothing shadowed, pending or
    /// kept, suspended when the entry is inactive.
    pub fn new(inactive: bool) -> (r: CompileState)
        ensures
            r.wf(),
            r.shadow() == Set::<Seq<char>>::empty(),
            r.logical_tick == 1,
            r.dirty_shadow_logical_tick == 0,
            r.suspended == inactive,
            !r.compiling,
            r.suspended_reason == none_reason(),
            r.committed_revision == 0,
            r.revision == 1,
            r.snapshot_revision == None::<usize>,
    {
        let r = CompileState {
            logical_tick: 1,
            dirty_shadow_logical_tick: 0,
            estimated_shadow_files: Vec::new(),
            suspended: inactive,
            compiling: false,
            suspended_reason: no_reason(),
            committed_revision: 0,
            revision: 1,
            snapshot_revision: None,
        };
        assert(path_set(r.estimated_shadow_files@) =~= Set::<Seq<char>>::empty());
        r
    }

    /// Advances the logical clock by one, once per event.
    pub fn tick(&mut self)
        requires
            old(self).logical_tick < usize::MAX,
        ensures
            final(self).logical_tick == old(self).logical_tick + 1,
            final(self).wf() == old(self).wf(),
            final(self).shadow() == old(self).shadow(),
            final(self).dirty_shadow_logical_tick == old(self).dirty_shadow_logical_tick,
            final(self).suspended == old(self).suspended,
            final(self).revision == old(self).revision,
            final(self).snapshot_revision == old(self).snapshot_revision,
            final(self).compiling == old(self).compiling,
            final(self).suspended_reason == old(self).suspended_reason,
            final(self).committed_revision == old(self).committed_revision,
    {
        self.logical_tick = self.logical_tick + 1;
    }

    /// Asks for a compilation. The reason joins those kept; a suspended or
    /// busy compiler keeps them all for later, otherwise a compilation
    /// starts for all of them and none are kept.
    pub fn run_compile(&mut self, reason: CompileReasons) -> (r: CompileStart)
        ensures
            r == compile_answer(old(self).suspended, old(self).compiling, old(self).suspended_reason, reason),
            final(self).suspended_reason == kept_after(
                old(self).suspended,
                old(self).compiling,
                old(self).suspended_reason,
                reason,
            ),
            final(self).compiling == (old(self).compiling || !old(self).suspended),
            final(self).suspended == old(self).suspended,
            final(self).revision == old(self).revision,
            final(self).snapshot_revision == old(self).snapshot_revision,
            final(self).logical_tick == old(self).logical_tick,
            final(self).dirty_shadow_logical_tick == old(self).dirty_shadow_logical_tick,
            final(self).committed_revision == old(self).committed_revision,
            final(self).wf() == old(self).wf(),
            final(self).shadow() == old(self).shadow(),
    {
        self.suspended_reason.see(reason);
        let reason = self.suspended_reason;
        self.suspended_reason = no_reason();
        if self.suspended {
            self.suspended_reason.see(reason);
            return CompileStart::Suspended(reason);
        }
        if self.compiling {
            self.suspended_reason.see(reason);
            return CompileStart::Busy(reason);
        }
        self.compiling = true;
        CompileStart::Start(reason)
    }

    /// Takes the result of a compilation of `revision`: the compiler is no
    /// longer busy, and the result is committed unless a result at least as
    /// new was. Returns whether it was committed.
    pub fn process_compile(&mut self, revision: usize) -> (r: bool)
        ensures
            r == (old(self).committed_revision < revision),
            final(self).committed_revision >= old(self).committed_revision,
            final(self).committed_revision == (if r {
                revision
            } else {
                old(self).committed_revision
            }),
            !final(self).compiling,
            final(self).suspended == old(self).suspended,
            final(self).revision == old(self).revision,
            final(self).snapshot_revision == old(self).snapshot_revision,
            final(self).suspended_reason == old(self).suspended_reason,
            final(self).logical_tick == old(self).logical_tick,
            final(self).dirty_shadow_logical_tick == old(self).dirty_shadow_logical_tick,
            final(self).wf() == old(self).wf(),
            final(self).shadow() == old(self).shadow(),
    {
        self.compiling = false;
        if self.committed_revision >= revision {
            return false;
        }
        self.committed_revision = revision;
        true
    }

    /// The reasons kept while compiling, taken after a compilation ends.
    pub fn process_lagged_compile(&mut self) -> (r: CompileReasons)
        ensures
            r == old(self).suspended_reason,
            final(self).suspended_reason == none_reason(),
            final(self).suspended == old(self).suspended,
            final(self).revision == old(self).revision,
            final(self).snapshot_revision == old(self).snapshot_revision,
            final(self).compiling == old(self).compiling,
            final(self).committed_revision == old(self).committed_revision,
            final(self).logical_tick == old(self).logical_tick,
            final(self).dirty_shadow_logical_tick == old(self).dirty_shadow_logical_tick,
            final(self).wf() == old(self).wf(),
            final(self).shadow() == old(self).shadow(),
    {
        let r = self.suspended_reason;
        self.suspended_reason = no_reason();
        r
    }

    /// The entry changed: the compiler is suspended exactly when the new
    /// entry is inactive, and the kept reasons are dropped.
    pub fn change_entry(&mut self, inactive: bool)
        ensures
            final(self).suspended == inactive,
            final(self).suspended_reason == none_reason(),
            final(self).revision == old(self).revision,
            final(self).snapshot_revision == old(self).snapshot_revision,
            final(self).compiling == old(self).compiling,
            final(self).committed_revision == old(self).committed_revision,
            final(self).logical_tick == old(self).logical_tick,
            final(self).dirty_shadow_logical_tick == old(self).dirty_shadow_logical_tick,
            final(self).wf() == old(self).wf(),
            final(self).shadow() == old(self).shadow(),
    {
        self.suspended = inactive;
        self.suspended_reason = no_reason();
    }

    /// An edit of memory files: `removes` are unmapped and `inserts` mapped,
    /// after dropping every shadow first if the edit is a full sync. The
    /// paths that stop being shadowed are invalidated; if there are none
    /// and no invalidation is pending, the edit is applied at once, with
    /// memory edits as the reason. Otherwise the invalidation goes upstream
    /// tagged with the clock, which marks the shadow dirty, and there is no
    /// reason to compile yet.
    pub fn process_memory(&mut self, is_sync: bool, removes: &Vec<String>, inserts: &Vec<String>) -> (r: (
        MemoryDecision,
        CompileReasons,
    ))
        requires
            old(self).wf(),
        ensures
            final(self).wf(),
            final(self).shadow() == (if is_sync {
                Set::<Seq<char>>::empty()
            } else {
                old(self).shadow()
            }).difference(path_set(removes@)).union(path_set(inserts@)),
            match r.0 {
                MemoryDecision::ApplyNow => {
                    &&& (if is_sync {
                        old(self).shadow()
                    } else {
                        Set::<Seq<char>>::empty()
                    }).union(path_set(removes@)).difference(path_set(inserts@)).is_empty()
                    &&& old(self).dirty_shadow_logical_tick == 0
                    &&& final(self).dirty_shadow_logical_tick == 0
                    &&& r.1 == reason_by_mem_spec()
                },
                MemoryDecision::SendUpstream { invalidates, logical_tick } => {
                    &&& path_set(invalidates@) == (if is_sync {
                        old(self).shadow()
                    } else {
                        Set::<Seq<char>>::empty()
                    }).union(path_set(removes@)).difference(path_set(inserts@))
                    &&& no_dup(invalidates@)
                    &&& !(path_set(invalidates@).is_empty() && old(self).dirty_shadow_logical_tick == 0)
                    &&& logical_tick == old(self).logical_tick
                    &&& final(self).dirty_shadow_logical_tick == old(self).logical_tick
                    &&& r.1 == none_reason()
                },
            },
            final(self).logical_tick == old(self).logical_tick,
            final(self).suspended == old(self).suspended,
            final(self).revision == old(self).revision,
            final(self).snapshot_revision == old(self).snapshot_revision,
            final(self).compiling == old(self).compiling,
            final(self).suspended_reason == old(self).suspended_reason,
            final(self).committed_revision == old(self).committed_revision,
    {
        let mut est: Vec<String> = Vec::new();
        core::mem::swap(&mut est, &mut self.estimated_shadow_files);
        let mut files: Vec<String> = Vec::new();
        if is_sync {
            core::mem::swap(&mut files, &mut est);
        }
        let ghost e0 = path_set(est@);
        let ghost f0 = path_set(files@);
        proof {
            if is_sync {
                assert(e0 =~= Set::<Seq<char>>::empty());
            } else {
                assert(f0 =~= Set::<Seq<char>>::empty());
            }
        }
        let mut i: usize = 0;
        assert(path_set(removes@.subrange(0, 0)) =~= Set::<Seq<char>>::empty());
        assert(e0 =~= e0.difference(Set::<Seq<char>>::empty()));
        assert(f0 =~= f0.union(Set::<Seq<char>>::empty()));
        while i < removes.len()
            invariant
                i <= removes@.len(),
                no_dup(est@),
                no_dup(files@),
                path_set(est@) == e0.difference(path_set(removes@.subrange(0, i as int))),
                path_set(files@) == f0.union(path_set(removes@.subrange(0, i as int))),
            decreases removes@.len() - i,
        {
            let p = &removes[i];
            remove_path(&mut est, p.as_str());
            insert_path(&mut files, p);
            proof {
                lemma_path_set_push(removes@.subrange(0, i as int), removes@[i as int]);
                assert(removes@.subrange(0, i + 1) =~= removes@.subrange(0, i as int).push(removes@[i as int]));
            }
            i = i + 1;
            assert(path_set(est@) =~= e0.difference(path_set(removes@.subrange(0, i as int))));
            assert(path_set(files@) =~= f0.union(path_set(removes@.subrange(0, i as int))));
        }
        assert(removes@.subrange(0, removes@.len() as int) =~= removes@);
        let ghost e1 = path_set(est@);
        let ghost f1 = path_set(files@);
        let mut j: usize = 0;
        assert(path_set(inserts@.subrange(0, 0)) =~= Set::<Seq<char>>::empty());
        assert(e1 =~= e1.union(Set::<Seq<char>>::empty()));
        assert(f1 =~= f1.difference(Set::<Seq<char>>::empty()));
        while j < inserts.len()
            invariant
                j <= inserts@.len(),
                no_dup(est@),
                no_dup(files@),
                path_set(est@) == e1.union(path_set(inserts@.subrange(0, j as int))),
                path_set(files@) == f1.difference(path_set(inserts@.subrange(0, j as int))),
            decreases inserts@.len() - j,
        {
            let p = &inserts[j];
            insert_path(&mut est, p);
            remove_path(&mut files, p.as_str());
            proof {
                lemma_path_set_push(inserts@.subrange(0, j as int), inserts@[j as int]);
                assert(inserts@.subrange(0, j + 1) =~= inserts@.subrange(0, j as int).push(inserts@[j as int]));
            }
            j = j + 1;
            assert(path_set(est@) =~= e1.union(path_set(inserts@.subrange(0, j as int))));
            assert(path_set(files@) =~= f1.difference(path_set(inserts@.subrange(0, j as int))));
        }
        assert(inserts@.subrange(0, inserts@.len() as int) =~= inserts@);
        self.estimated_shadow_files = est;
        if files.len() == 0 && self.dirty_shadow_logical_tick == 0 {
            assert(path_set(files@) =~= Set::<Seq<char>>::empty());
            return (MemoryDecision::ApplyNow, reason_by_mem());
        }
        proof {
            if files@.len() > 0 {
                assert(path_set(files@).contains(files@[0]@));
            }
        }
        self.dirty_shadow_logical_tick = self.logical_tick;
        let tick = self.logical_tick;
        (MemoryDecision::SendUpstream { invalidates: files, logical_tick: tick }, no_reason())
    }

    /// A file-system event. When it answers the pending edit, the shadow is
    /// clean again. The reason is a disk change, or a memory edit when the
    /// event answers an edit that cannot be recovered.
    pub fn process_fs(&mut self, upstream: UpstreamTag) -> (r: CompileReasons)
        ensures
            r == (if upstream == UpstreamTag::Unknown {
                reason_by_mem_spec()
            } else {
                reason_by_fs_spec()
            }),
            final(self).dirty_shadow_logical_tick == (match upstream {
                UpstreamTag::Known(t) => if t == old(self).dirty_shadow_logical_tick {
                    0
                } else {
                    old(self).dirty_shadow_logical_tick
                },
                _ => old(self).dirty_shadow_logical_tick,
            }),
            final(self).logical_tick == old(self).logical_tick,
            final(self).suspended == old(self).suspended,
            final(self).revision == old(self).revision,
            final(self).snapshot_revision == old(self).snapshot_revision,
            final(self).compiling == old(self).compiling,
            final(self).suspended_reason == old(self).suspended_reason,
            final(self).committed_revision == old(self).committed_revision,
            final(self).wf() == old(self).wf(),
            final(self).shadow() == old(self).shadow(),
    {
        match upstream {
            UpstreamTag::Known(t) => {
                if t == self.dirty_shadow_logical_tick {
                    self.dirty_shadow_logical_tick = 0;
                }
                reason_by_fs()
            },
            UpstreamTag::NotUpstream => reason_by_fs(),
            UpstreamTag::Unknown => reason_by_mem(),
        }
    }
}

/// Memory files were edited.
pub open spec fn reason_by_mem_spec() -> CompileReasons {
    CompileReasons { by_memory_events: true, ..none_reason() }
}

/// Files on disk changed.
pub open spec fn reason_by_fs_spec() -> CompileReasons {
    CompileReasons { by_fs_events: true, ..none_reason() }
}

proof fn lemma_path_set_push(v: Seq<String>, s: String)
    ensures
        path_set(v.push(s)) == path_set(v).insert(s@),
{
    assert forall|q: Seq<char>| path_set(v.push(s)).contains(q) implies path_set(v).insert(s@).contains(q) by {
        let k = choose|k: int| 0 <= k < v.push(s).len() && #[trigger] v.push(s)[k]@ == q;
        if k < v.len() {
            assert(v[k]@ == q);
        }
    }
    assert forall|q: Seq<char>| path_set(v).insert(s@).contains(q) implies path_set(v.push(s)).contains(q) by {
        if q == s@ {
            assert(v.push(s)[v.len() as int]@ == q);
        } else {
            let k = choose|k: int| 0 <= k < v.len() && #[trigger] v[k]@ == q;
            assert(v.push(s)[k]@ == q);
        }
    }
    assert(path_set(v.push(s)) =~= path_set(v).insert(s@));
}

/// The answer to a compilation request, given whether the compiler is
/// suspended or busy and the reasons it kept.
pub open spec fn compile_answer(suspended: bool, compiling: bool, kept: CompileReasons, reason: CompileReasons) -> CompileStart {
    if suspended {
        CompileStart::Suspended(union(kept, reason))
    } else if compiling {
        CompileStart::Busy(union(kept, reason))
    } else {
        CompileStart::Start(union(kept, reason))
    }
}

/// The reasons kept after a compilation request.
pub open spec fn kept_after(suspended: bool, compiling: bool, kept: CompileReasons, reason: CompileReasons) -> CompileReasons {
    if suspended || compiling {
        union(kept, reason)
    } else {
        none_reason()
    }
}

/// The reasons that an answer carries.
pub open spec fn answer_reason(a: CompileStart) -> CompileReasons {
    match a {
        CompileStart::Suspended(r) => r,
        CompileStart::Busy(r) => r,
        CompileStart::Start(r) => r,
    }
}

/// No reason is lost: a request that does not start a compilation is kept,
/// and the next request carries it, whatever that request's own reason.
pub proof fn lemma_reasons_kept(
    suspended: bool,
    compiling: bool,
    kept: CompileReasons,
    first: CompileReasons,
    second: CompileReasons,
)
    requires
        !(compile_answer(suspended, compiling, kept, first) is Start),
    ensures
        includes(
            answer_reason(
                compile_answer(
                    suspended,
                    compiling || !suspended,
                    kept_after(suspended, compiling, kept, first),
                    second,
                ),
            ),
            union(kept, first),
        ),
{
}

/// Every answer carries the reasons kept and the reason given, and nothing
/// else; a started compilation leaves nothing kept.
pub proof fn lemma_answer_reasons(suspended: bool, compiling: bool, kept: CompileReasons, reason: CompileReasons)
    ensures
        answer_reason(compile_answer(suspended, compiling, kept, reason)) == union(kept, reason),
        compile_answer(suspended, compiling, kept, reason) is Start ==> kept_after(suspended, compiling, kept, reason)
            == none_reason(),
        any_reason(union(kept, reason)) == (any_reason(kept) || any_reason(reason)),
{
}

} // verus!
