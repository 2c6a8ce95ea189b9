//! The reactive runtime: signal cells, dependency tracking, memo nodes, and
//! the batching effect scheduler.
//!
//! The runtime owns an arena of nodes addressed by integer handles. A host
//! (a rendering layer, a test harness) drives it: it creates cells, memos and
//! effects, reads and writes through the handles, and runs the bodies of
//! effects and memos itself between the `take_next_effect` /
//! `finish_effect_run` and `start_memo_eval` / `finish_memo_eval` calls. The
//! runtime makes every decision — what is dirty, what is scheduled, what a
//! computation read — while the host performs the evaluation, so the whole
//! decision logic is verified here and the host stays a thin loop.
//!
//! Subscriptions are stored on the dependents: the subscriber set of a cell
//! or memo is, derived, the set of effects and memos whose dependency list
//! names it. Dependency lists are rebuilt from the freshly captured read-set
//! on every run, so dependencies are dynamic, and disposing a node empties
//! its list, which removes it from every derived subscriber set at once.
//!
//! Policy choices left open by the design are settled as follows: writes are
//! never elided on equality (every committed write notifies), and a memo's
//! cached value is validated by its dirty flag alone — writes mark dependent
//! memos dirty eagerly and transitively, which makes the flag equivalent to
//! comparing recorded generation stamps.

use vstd::prelude::*;

use crate::error::ReactiveError;

verus! {

/// How many effect runs one flush pass may hand out before the runtime
/// reports a reactive cycle instead of re-triggering forever.
pub const FLUSH_LIMIT: usize = 64;

/// A source a computation can read: a signal cell or a memo node.
#[derive(Clone, Copy, Debug, PartialEq, Eq, Structural)]
pub enum Source {
    Cell(usize),
    Memo(usize),
}

/// The computation a tracking frame belongs to.
#[derive(Clone, Copy, Debug, PartialEq, Eq, Structural)]
pub enum Owner {
    Memo(usize),
    Effect(usize),
}

/// The scheduler's view of one effect.
#[derive(Clone, Copy, Debug, PartialEq, Eq, Structural)]
pub enum EffectState {
    /// Not scheduled; waiting for a dependency to change.
    Idle,
    /// Queued for the current flush pass.
    Scheduled,
    /// Handed to the host, which is running its body now.
    Running,
    /// Running, and a dependency changed meanwhile: queued again when the
    /// run finishes.
    RunningRescheduled,
    /// Disposed: never run again. Terminal.
    Disposed,
}

/// A mutable reactive memory location.
pub struct CellNode<T> {
    pub value: T,
    /// Strictly increases on every committed write.
    pub generation: u64,
    pub disposed: bool,
}

/// A cached derived computation.
pub struct MemoNode<T> {
    /// The value of the last evaluation; `None` until the first one.
    pub cached: Option<T>,
    /// Whether the cached value may be stale and the next read must
    /// re-evaluate.
    pub dirty: bool,
    /// The sources read during the last evaluation.
    pub deps: Vec<Source>,
    pub disposed: bool,
}

/// A side-effecting computation re-run when a dependency changes.
pub struct EffectNode {
    pub state: EffectState,
    /// The sources read during the last run.
    pub deps: Vec<Source>,
}

/// The answer of `memo_get`: either the cached value is valid and served, or
/// the memo must be re-evaluated by the host first.
#[derive(Debug)]
pub enum MemoProbe<T> {
    /// The cached value, still valid.
    Ready(T),
    /// The memo is dirty: evaluate it between `start_memo_eval` and
    /// `finish_memo_eval`, then ask again.
    NeedsEval,
}

/// One entry of the tracking-context stack: the computation being evaluated
/// and the sources it has read so far.
pub struct Frame {
    pub owner: Owner,
    pub reads: Vec<Source>,
}

/// The reactive graph and its scheduler state.
pub struct Runtime<T> {
    pub cells: Vec<CellNode<T>>,
    pub memos: Vec<MemoNode<T>>,
    pub effects: Vec<EffectNode>,
    /// The tracking-context stack; the last frame is the innermost one.
    pub frames: Vec<Frame>,
    /// Scheduled effects, in schedule order.
    pub queue: Vec<usize>,
    /// Nesting depth of open batches.
    pub batch_depth: usize,
    /// Effect runs handed out since the current flush pass began.
    pub runs_in_flush: usize,
}

/// `post` is `pre` with the source `s` recorded in the innermost tracking
/// frame: appended to its read-set unless already present. Without an open
/// frame nothing is recorded.
pub open spec fn frames_after_read(pre: Seq<Frame>, post: Seq<Frame>, s: Source) -> bool {
    if pre.len() == 0 {
        post == pre
    } else {
        let t = pre.len() - 1;
        &&& post.len() == pre.len()
        &&& (forall|i: int| 0 <= i < t ==> post[i] == pre[i])
        &&& post[t].owner == pre[t].owner
        &&& (if pre[t].reads@.contains(s) {
            post[t].reads@ == pre[t].reads@
        } else {
            post[t].reads@ == pre[t].reads@.push(s)
        })
    }
}

impl<T: Copy> Runtime<T> {
    /// The handle names a node of the arena.
    pub open spec fn src_valid(self, s: Source) -> bool {
        match s {
            Source::Cell(c) => c < self.cells@.len(),
            Source::Memo(m) => m < self.memos@.len(),
        }
    }

    pub open spec fn deps_valid(self, deps: Seq<Source>) -> bool {
        forall|k: int| 0 <= k < deps.len() ==> self.src_valid(#[trigger] deps[k])
    }

    pub open spec fn owner_valid(self, o: Owner) -> bool {
        match o {
            Owner::Memo(m) => m < self.memos@.len(),
            Owner::Effect(e) => e < self.effects@.len(),
        }
    }

    /// The structural invariant of the graph: every recorded handle is in
    /// bounds; the queue holds only scheduled (or since-disposed) effects,
    /// each at most once; every scheduled effect is queued; and a memo that
    /// claims to be clean has a cached value to serve.
    pub open spec fn wf(self) -> bool {
        &&& (forall|m: int|
            0 <= m < self.memos@.len() ==> self.deps_valid((#[trigger] self.memos@[m]).deps@))
        &&& (forall|e: int|
            0 <= e < self.effects@.len() ==> self.deps_valid((#[trigger] self.effects@[e]).deps@))
        &&& (forall|f: int|
            0 <= f < self.frames@.len() ==> self.owner_valid((#[trigger] self.frames@[f]).owner)
                && self.deps_valid(self.frames@[f].reads@))
        &&& (forall|i: int|
            0 <= i < self.queue@.len() ==> (#[trigger] self.queue@[i]) < self.effects@.len() && (
            self.effects@[self.queue@[i] as int].state == EffectState::Scheduled
                || self.effects@[self.queue@[i] as int].state == EffectState::Disposed))
        &&& (forall|i: int, j: int|
            0 <= i < j < self.queue@.len() ==> self.queue@[i] != self.queue@[j])
        &&& (forall|e: usize|
            e < self.effects@.len() && (#[trigger] self.effects@[e as int]).state
                == EffectState::Scheduled ==> self.queue@.contains(e))
        &&& (forall|m: int|
            0 <= m < self.memos@.len() && !(#[trigger] self.memos@[m]).dirty
                ==> self.memos@[m].cached is Some)
    }

    /// An empty reactive graph: no nodes, no open frame, no open batch,
    /// nothing scheduled.
    pub fn new() -> (rt: Runtime<T>)
        ensures
            rt.wf(),
            rt.cells@.len() == 0,
            rt.memos@.len() == 0,
            rt.effects@.len() == 0,
            rt.frames@.len() == 0,
            rt.queue@.len() == 0,
            rt.batch_depth == 0,
            rt.runs_in_flush == 0,
    {
        Runtime {
            cells: Vec::new(),
            memos: Vec::new(),
            effects: Vec::new(),
            frames: Vec::new(),
            queue: Vec::new(),
            batch_depth: 0,
            runs_in_flush: 0,
        }
    }

    /// Creates a signal cell holding `initial` and returns its handle.
    pub fn create_cell(&mut self, initial: T) -> (c: usize)
        requires
            old(self).wf(),
        ensures
            final(self).wf(),
            c == old(self).cells@.len(),
            final(self).cells@ == old(self).cells@.push(
                (CellNode { value: initial, generation: 0, disposed: false }),
            ),
            final(self).memos@ == old(self).memos@,
            final(self).effects@ == old(self).effects@,
            final(self).frames@ == old(self).frames@,
            final(self).queue@ == old(self).queue@,
            final(self).batch_depth == old(self).batch_depth,
            final(self).runs_in_flush == old(self).runs_in_flush,
    {
        let c = self.cells.len();
        self.cells.push(CellNode { value: initial, generation: 0, disposed: false });
        c
    }

    /// Creates a memo node and returns its handle. The node starts dirty and
    /// uncached: the first `memo_get` asks the host for an evaluation.
    pub fn create_memo(&mut self) -> (m: usize)
        requires
            old(self).wf(),
        ensures
            final(self).wf(),
            m == old(self).memos@.len(),
            final(self).memos@.len() == old(self).memos@.len() + 1,
            forall|i: int|
                0 <= i < old(self).memos@.len() ==> final(self).memos@[i] == old(self).memos@[i],
            final(self).memos@[m as int].cached is None,
            final(self).memos@[m as int].dirty == true,
            final(self).memos@[m as int].deps@.len() == 0,
            final(self).memos@[m as int].disposed == false,
            final(self).cells@ == old(self).cells@,
            final(self).effects@ == old(self).effects@,
            final(self).frames@ == old(self).frames@,
            final(self).queue@ == old(self).queue@,
            final(self).batch_depth == old(self).batch_depth,
            final(self).runs_in_flush == old(self).runs_in_flush,
    {
        let m = self.memos.len();
        self.memos.push(MemoNode { cached: None, dirty: true, deps: Vec::new(), disposed: false });
        m
    }

    /// Creates an effect and opens its first run: the node starts `Running`
    /// with a fresh tracking frame, and the host evaluates the effect's body
    /// before calling `finish_effect_run`.
    pub fn create_effect(&mut self) -> (e: usize)
        requires
            old(self).wf(),
        ensures
            final(self).wf(),
            e == old(self).effects@.len(),
            final(self).effects@.len() == old(self).effects@.len() + 1,
            forall|i: int|
                0 <= i < old(self).effects@.len() ==> final(self).effects@[i] == old(
                    self,
                ).effects@[i],
            final(self).effects@[e as int].state == EffectState::Running,
            final(self).effects@[e as int].deps@.len() == 0,
            final(self).frames@.len() == old(self).frames@.len() + 1,
            forall|i: int|
                0 <= i < old(self).frames@.len() ==> final(self).frames@[i] == old(
                    self,
                ).frames@[i],
            final(self).frames@[old(self).frames@.len() as int].owner == Owner::Effect(e),
            final(self).frames@[old(self).frames@.len() as int].reads@.len() == 0,
            final(self).cells@ == old(self).cells@,
            final(self).memos@ == old(self).memos@,
            final(self).queue@ == old(self).queue@,
            final(self).batch_depth == old(self).batch_depth,
            final(self).runs_in_flush == old(self).runs_in_flush,
    {
        let e = self.effects.len();
        self.effects.push(EffectNode { state: EffectState::Running, deps: Vec::new() });
        self.frames.push(Frame { owner: Owner::Effect(e), reads: Vec::new() });
        e
    }

    /// What recording a read of `s` does: the source lands in the innermost
    /// frame's read-set and in the dependency list of that frame's owner,
    /// each unless already present, so the running computation subscribes to
    /// what it reads as it reads it. Without an open frame nothing changes.
    pub open spec fn tracked_read_ok(self, post: Runtime<T>, s: Source) -> bool {
        &&& frames_after_read(self.frames@, post.frames@, s)
        &&& post.cells@ == self.cells@
        &&& post.queue@ == self.queue@
        &&& post.batch_depth == self.batch_depth
        &&& post.runs_in_flush == self.runs_in_flush
        &&& if self.frames@.len() == 0 {
            post.memos@ == self.memos@ && post.effects@ == self.effects@
        } else {
            match self.frames@[self.frames@.len() - 1].owner {
                Owner::Memo(om) => {
                    &&& post.effects@ == self.effects@
                    &&& post.memos@.len() == self.memos@.len()
                    &&& om < self.memos@.len()
                    &&& (forall|i: int|
                        0 <= i < self.memos@.len() && i != om ==> post.memos@[i]
                            == self.memos@[i])
                    &&& post.memos@[om as int].cached == self.memos@[om as int].cached
                    &&& post.memos@[om as int].dirty == self.memos@[om as int].dirty
                    &&& post.memos@[om as int].disposed == self.memos@[om as int].disposed
                    &&& post.memos@[om as int].deps@ == (if self.memos@[om as int].deps@.contains(
                        s,
                    ) {
                        self.memos@[om as int].deps@
                    } else {
                        self.memos@[om as int].deps@.push(s)
                    })
                },
                Owner::Effect(oe) => {
                    &&& post.memos@ == self.memos@
                    &&& post.effects@.len() == self.effects@.len()
                    &&& oe < self.effects@.len()
                    &&& (forall|i: int|
                        0 <= i < self.effects@.len() && i != oe ==> post.effects@[i]
                            == self.effects@[i])
                    &&& post.effects@[oe as int].state == self.effects@[oe as int].state
                    &&& post.effects@[oe as int].deps@ == (if self.effects@[oe as int].deps@.contains(
                        s,
                    ) {
                        self.effects@[oe as int].deps@
                    } else {
                        self.effects@[oe as int].deps@.push(s)
                    })
                },
            }
        }
    }

    /// Reads a cell. While a computation is being tracked, the read is
    /// recorded — the computation subscribes to the cell — and the current
    /// value is returned; outside tracking the read has no side effect.
    /// Reading a disposed or unknown handle is reported.
    pub fn read_cell(&mut self, c: usize) -> (r: Result<T, ReactiveError>)
        requires
            old(self).wf(),
        ensures
            final(self).wf(),
            c < old(self).cells@.len() && !old(self).cells@[c as int].disposed ==> {
                &&& r == Ok::<T, ReactiveError>(old(self).cells@[c as int].value)
                &&& old(self).tracked_read_ok(*final(self), Source::Cell(c))
            },
            !(c < old(self).cells@.len() && !old(self).cells@[c as int].disposed) ==> {
                &&& r == Err::<T, ReactiveError>(ReactiveError::UseAfterDispose)
                &&& *final(self) == *old(self)
            },
    {
        if c >= self.cells.len() || self.cells[c].disposed {
            return Err(ReactiveError::UseAfterDispose);
        }
        let v = self.cells[c].value;
        self.record_read(Source::Cell(c));
        Ok(v)
    }

    /// Records a read of `s` in the innermost tracking frame and in its
    /// owner's dependency list, if a frame is open.
    fn record_read(&mut self, s: Source)
        requires
            old(self).wf(),
            old(self).src_valid(s),
        ensures
            final(self).wf(),
            old(self).tracked_read_ok(*final(self), s),
    {
        let nf = self.frames.len();
        if nf == 0 {
            return;
        }
        let top = nf - 1;
        if !source_list_contains(&self.frames[top].reads, s) {
            self.frames[top].reads.push(s);
        }
        let owner = self.frames[top].owner;
        match owner {
            Owner::Memo(om) => {
                if !source_list_contains(&self.memos[om].deps, s) {
                    self.memos[om].deps.push(s);
                }
            },
            Owner::Effect(oe) => {
                if !source_list_contains(&self.effects[oe].deps, s) {
                    self.effects[oe].deps.push(s);
                }
            },
        }
    }

    /// Marks a cell disposed: later reads and writes through its handle are
    /// reported as `UseAfterDispose`.
    pub fn dispose_cell(&mut self, c: usize) -> (r: Result<(), ReactiveError>)
        requires
            old(self).wf(),
        ensures
            final(self).wf(),
            c < old(self).cells@.len() && !old(self).cells@[c as int].disposed ==> {
                &&& r == Ok::<(), ReactiveError>(())
                &&& final(self).cells@ == old(self).cells@.update(
                    c as int,
                    (CellNode {
                        value: old(self).cells@[c as int].value,
                        generation: old(self).cells@[c as int].generation,
                        disposed: true,
                    }),
                )
                &&& final(self).memos@ == old(self).memos@
                &&& final(self).effects@ == old(self).effects@
                &&& final(self).frames@ == old(self).frames@
                &&& final(self).queue@ == old(self).queue@
                &&& final(self).batch_depth == old(self).batch_depth
                &&& final(self).runs_in_flush == old(self).runs_in_flush
            },
            !(c < old(self).cells@.len() && !old(self).cells@[c as int].disposed) ==> {
                &&& r == Err::<(), ReactiveError>(ReactiveError::UseAfterDispose)
                &&& *final(self) == *old(self)
            },
    {
        if c >= self.cells.len() || self.cells[c].disposed {
            return Err(ReactiveError::UseAfterDispose);
        }
        self.cells[c].disposed = true;
        Ok(())
    }

    /// Disposes a memo: its dependency list is emptied — removing it from
    /// every derived subscriber set — and later `memo_get` calls through the
    /// handle are reported.
    pub fn dispose_memo(&mut self, m: usize) -> (r: Result<(), ReactiveError>)
        requires
            old(self).wf(),
        ensures
            final(self).wf(),
            m < old(self).memos@.len() && !old(self).memos@[m as int].disposed ==> {
                &&& r == Ok::<(), ReactiveError>(())
                &&& final(self).memos@.len() == old(self).memos@.len()
                &&& (forall|i: int|
                    0 <= i < old(self).memos@.len() && i != m ==> final(self).memos@[i] == old(
                        self,
                    ).memos@[i])
                &&& final(self).memos@[m as int].disposed == true
                &&& final(self).memos@[m as int].deps@.len() == 0
                &&& final(self).memos@[m as int].cached == old(self).memos@[m as int].cached
                &&& final(self).memos@[m as int].dirty == old(self).memos@[m as int].dirty
                &&& final(self).cells@ == old(self).cells@
                &&& final(self).effects@ == old(self).effects@
                &&& final(self).frames@ == old(self).frames@
                &&& final(self).queue@ == old(self).queue@
                &&& final(self).batch_depth == old(self).batch_depth
                &&& final(self).runs_in_flush == old(self).runs_in_flush
            },
            !(m < old(self).memos@.len() && !old(self).memos@[m as int].disposed) ==> {
                &&& r == Err::<(), ReactiveError>(ReactiveError::UseAfterDispose)
                &&& *final(self) == *old(self)
            },
    {
        if m >= self.memos.len() || self.memos[m].disposed {
            return Err(ReactiveError::UseAfterDispose);
        }
        self.memos[m].disposed = true;
        self.memos[m].deps.clear();
        Ok(())
    }

    /// Disposes an effect: its state becomes terminal and its dependency
    /// list is emptied, so no write can schedule it again. If it is still
    /// sitting in the queue it is skipped — not run — at flush time.
    pub fn dispose_effect(&mut self, e: usize) -> (r: Result<(), ReactiveError>)
        requires
            old(self).wf(),
        ensures
            final(self).wf(),
            e < old(self).effects@.len() && old(self).effects@[e as int].state
                != EffectState::Disposed ==> {
                &&& r == Ok::<(), ReactiveError>(())
                &&& final(self).effects@.len() == old(self).effects@.len()
                &&& (forall|i: int|
                    0 <= i < old(self).effects@.len() && i != e ==> final(self).effects@[i] == old(
                        self,
                    ).effects@[i])
                &&& final(self).effects@[e as int].state == EffectState::Disposed
                &&& final(self).effects@[e as int].deps@.len() == 0
                &&& final(self).cells@ == old(self).cells@
                &&& final(self).memos@ == old(self).memos@
                &&& final(self).frames@ == old(self).frames@
                &&& final(self).queue@ == old(self).queue@
                &&& final(self).batch_depth == old(self).batch_depth
                &&& final(self).runs_in_flush == old(self).runs_in_flush
            },
            !(e < old(self).effects@.len() && old(self).effects@[e as int].state
                != EffectState::Disposed) ==> {
                &&& r == Err::<(), ReactiveError>(ReactiveError::UseAfterDispose)
                &&& *final(self) == *old(self)
            },
    {
        if e >= self.effects.len() {
            return Err(ReactiveError::UseAfterDispose);
        }
        if self.effects[e].state == EffectState::Disposed {
            return Err(ReactiveError::UseAfterDispose);
        }
        self.effects[e].state = EffectState::Disposed;
        self.effects[e].deps.clear();
        Ok(())
    }

    /// Opens a batch: writes made until the matching `end_batch` are
    /// coalesced into one flush pass.
    pub fn begin_batch(&mut self)
        requires
            old(self).wf(),
            old(self).batch_depth < usize::MAX,
        ensures
            final(self).wf(),
            final(self).batch_depth == old(self).batch_depth + 1,
            final(self).cells@ == old(self).cells@,
            final(self).memos@ == old(self).memos@,
            final(self).effects@ == old(self).effects@,
            final(self).frames@ == old(self).frames@,
            final(self).queue@ == old(self).queue@,
            final(self).runs_in_flush == old(self).runs_in_flush,
    {
        self.batch_depth = self.batch_depth + 1;
    }

    /// Closes the innermost batch. When the outermost batch closes, the run
    /// budget of the coming flush pass is reset and the host should drain
    /// the queue with `take_next_effect`.
    pub fn end_batch(&mut self)
        requires
            old(self).wf(),
            old(self).batch_depth > 0,
        ensures
            final(self).wf(),
            final(self).batch_depth == old(self).batch_depth - 1,
            final(self).runs_in_flush == (if old(self).batch_depth == 1 {
                0
            } else {
                old(self).runs_in_flush as int
            }),
            final(self).cells@ == old(self).cells@,
            final(self).memos@ == old(self).memos@,
            final(self).effects@ == old(self).effects@,
            final(self).frames@ == old(self).frames@,
            final(self).queue@ == old(self).queue@,
    {
        self.batch_depth = self.batch_depth - 1;
        if self.batch_depth == 0 {
            self.runs_in_flush = 0;
        }
    }

    /// Reports whether memo `m` has a hot dependency after a write to `c`.
    fn memo_has_hot_dep(&self, m: usize, c: usize) -> (r: bool)
        requires
            m < self.memos@.len(),
            self.deps_valid(self.memos@[m as int].deps@),
        ensures
            r <==> has_hot_dep(self.memos@, c, self.memos@[m as int].deps@),
    {
        let n = self.memos[m].deps.len();
        let mut k: usize = 0;
        while k < n
            invariant
                k <= n,
                m < self.memos@.len(),
                n == self.memos@[m as int].deps@.len(),
                self.deps_valid(self.memos@[m as int].deps@),
                forall|i: int|
                    0 <= i < k ==> !hot_dep(self.memos@, c, #[trigger] self.memos@[m as int].deps@[i]),
            decreases n - k,
        {
            let d = self.memos[m].deps[k];
            match d {
                Source::Cell(c2) => {
                    if c2 == c {
                        assert(hot_dep(self.memos@, c, self.memos@[m as int].deps@[k as int]));
                        return true;
                    }
                },
                Source::Memo(j) => {
                    if self.memos[j].dirty {
                        assert(hot_dep(self.memos@, c, self.memos@[m as int].deps@[k as int]));
                        return true;
                    }
                },
            }
            k = k + 1;
        }
        false
    }

    /// Reports whether effect `e` subscribes to the written cell `c` or to a
    /// memo this write flipped dirty; `snap` holds the dirty flags from
    /// before the write.
    fn effect_is_notified(
        &self,
        e: usize,
        c: usize,
        snap: &Vec<bool>,
        Ghost(pre_ms): Ghost<Seq<MemoNode<T>>>,
    ) -> (r: bool)
        requires
            e < self.effects@.len(),
            self.deps_valid(self.effects@[e as int].deps@),
            pre_ms.len() == self.memos@.len(),
            snap@.len() == pre_ms.len(),
            forall|j: int| 0 <= j < pre_ms.len() ==> snap@[j] == (#[trigger] pre_ms[j]).dirty,
        ensures
            r <==> effect_notified(pre_ms, self.memos@, c, self.effects@[e as int].deps@),
    {
        let n = self.effects[e].deps.len();
        let mut k: usize = 0;
        while k < n
            invariant
                k <= n,
                e < self.effects@.len(),
                n == self.effects@[e as int].deps@.len(),
                self.deps_valid(self.effects@[e as int].deps@),
                pre_ms.len() == self.memos@.len(),
                snap@.len() == pre_ms.len(),
                forall|j: int| 0 <= j < pre_ms.len() ==> snap@[j] == (#[trigger] pre_ms[j]).dirty,
                forall|i: int|
                    0 <= i < k ==> !notified_dep(
                        pre_ms,
                        self.memos@,
                        c,
                        #[trigger] self.effects@[e as int].deps@[i],
                    ),
            decreases n - k,
        {
            let d = self.effects[e].deps[k];
            match d {
                Source::Cell(c2) => {
                    if c2 == c {
                        assert(notified_dep(
                            pre_ms,
                            self.memos@,
                            c,
                            self.effects@[e as int].deps@[k as int],
                        ));
                        return true;
                    }
                },
                Source::Memo(j) => {
                    if self.memos[j].dirty && !snap[j] {
                        assert(notified_dep(
                            pre_ms,
                            self.memos@,
                            c,
                            self.effects@[e as int].deps@[k as int],
                        ));
                        return true;
                    }
                },
            }
            k = k + 1;
        }
        false
    }

    /// Writes `v` into cell `c`: the value is stored, the generation counter
    /// increases, every memo depending — directly or through other memos —
    /// on the cell is marked dirty, and every effect depending on the cell
    /// or on a memo this write invalidated takes one scheduler step. An
    /// effect that is already scheduled is not queued again, so within one
    /// batch an effect is notified at most once however often its
    /// dependencies are written. Writing a disposed or unknown handle is
    /// reported and changes nothing.
    pub fn write_cell(&mut self, c: usize, v: T) -> (r: Result<(), ReactiveError>)
        requires
            old(self).wf(),
            c < old(self).cells@.len() && !old(self).cells@[c as int].disposed ==> old(
                self,
            ).cells@[c as int].generation < u64::MAX,
        ensures
            final(self).wf(),
            c < old(self).cells@.len() && !old(self).cells@[c as int].disposed ==> {
                &&& r == Ok::<(), ReactiveError>(())
                &&& final(self).cells@ == old(self).cells@.update(
                    c as int,
                    (CellNode {
                        value: v,
                        generation: (old(self).cells@[c as int].generation + 1) as u64,
                        disposed: false,
                    }),
                )
                &&& memos_after_write(old(self).memos@, final(self).memos@, c)
                &&& effects_after_write(
                    old(self).memos@,
                    final(self).memos@,
                    old(self).effects@,
                    final(self).effects@,
                    c,
                )
                &&& final(self).queue@ == old(self).queue@ + enqueued_after_write(
                    old(self).memos@,
                    final(self).memos@,
                    old(self).effects@,
                    c,
                    old(self).effects@.len() as int,
                )
                &&& final(self).frames@ == old(self).frames@
                &&& final(self).batch_depth == old(self).batch_depth
                &&& final(self).runs_in_flush == old(self).runs_in_flush
            },
            !(c < old(self).cells@.len() && !old(self).cells@[c as int].disposed) ==> {
                &&& r == Err::<(), ReactiveError>(ReactiveError::UseAfterDispose)
                &&& *final(self) == *old(self)
            },
    {
        if c >= self.cells.len() || self.cells[c].disposed {
            return Err(ReactiveError::UseAfterDispose);
        }
        let ghost pre = *self;
        let g = self.cells[c].generation;
        self.cells[c].value = v;
        self.cells[c].generation = g + 1;
        assert(self.cells@ =~= pre.cells@.update(
            c as int,
            (CellNode { value: v, generation: (g + 1) as u64, disposed: false }),
        ));

        // Snapshot the dirty flags from before the write.
        let ghost pre_ms = self.memos@;
        let nm = self.memos.len();
        let mut snap: Vec<bool> = Vec::new();
        let mut i: usize = 0;
        while i < nm
            invariant
                i <= nm,
                nm == self.memos@.len(),
                self.memos@ == pre_ms,
                snap@.len() == i,
                forall|j: int| 0 <= j < i ==> snap@[j] == (#[trigger] pre_ms[j]).dirty,
            decreases nm - i,
        {
            snap.push(self.memos[i].dirty);
            i = i + 1;
        }

        // Propagate invalidation through the memo graph until it is closed.
        // Every productive pass flips at least one memo from clean to dirty,
        // so after at most `nm` productive passes a pass changes nothing and
        // the propagation is complete.
        let ghost cells_now = self.cells@;
        let ghost d0 = count_dirty(pre_ms, nm as int);
        let mut round: usize = 0;
        let mut done = false;
        while round <= nm && !done
            invariant
                round <= nm + 1,
                nm == self.memos@.len(),
                self.wf_memoless(),
                self.cells@ == cells_now,
                self.effects@ == pre.effects@,
                self.frames@ == pre.frames@,
                self.queue@ == pre.queue@,
                self.batch_depth == pre.batch_depth,
                self.runs_in_flush == pre.runs_in_flush,
                pre.wf(),
                pre_ms == pre.memos@,
                pre_ms.len() == nm,
                d0 == count_dirty(pre_ms, nm as int),
                memos_flip_ok(pre_ms, self.memos@, c),
                forall|m: int|
                    0 <= m < nm ==> self.deps_valid((#[trigger] self.memos@[m]).deps@),
                forall|m: int|
                    0 <= m < nm && !(#[trigger] self.memos@[m]).dirty ==> self.memos@[m].cached
                        is Some,
                done ==> dirty_closed(self.memos@, c),
                !done ==> count_dirty(self.memos@, nm as int) >= d0 + round,
            decreases nm + 1 - round + (if done {
                0int
            } else {
                1int
            }),
        {
            let ghost pass_pre = self.memos@;
            let mut changed = false;
            let mut m: usize = 0;
            while m < nm
                invariant
                    m <= nm,
                    nm == self.memos@.len(),
                    nm == pass_pre.len(),
                    self.cells@ == cells_now,
                    self.effects@ == pre.effects@,
                    self.frames@ == pre.frames@,
                    self.queue@ == pre.queue@,
                    self.batch_depth == pre.batch_depth,
                    self.runs_in_flush == pre.runs_in_flush,
                    pre_ms.len() == nm,
                    memos_flip_ok(pre_ms, self.memos@, c),
                    memos_flip_ok(pass_pre, self.memos@, c),
                    forall|mm: int|
                        0 <= mm < nm ==> self.deps_valid((#[trigger] self.memos@[mm]).deps@),
                    forall|mm: int|
                        0 <= mm < nm && !(#[trigger] self.memos@[mm]).dirty ==> self.memos@[mm].cached
                            is Some,
                    changed ==> count_dirty(self.memos@, nm as int) > count_dirty(
                        pass_pre,
                        nm as int,
                    ),
                    !changed ==> self.memos@ == pass_pre,
                    !changed ==> forall|mm: int|
                        0 <= mm < m && !(#[trigger] self.memos@[mm]).dirty
                            && !self.memos@[mm].disposed ==> !has_hot_dep(
                            self.memos@,
                            c,
                            self.memos@[mm].deps@,
                        ),
                decreases nm - m,
            {
                if !self.memos[m].dirty && !self.memos[m].disposed {
                    if self.memo_has_hot_dep(m, c) {
                        let ghost before = self.memos@;
                        self.memos[m].dirty = true;
                        proof {
                            assert(forall|ii: int|
                                0 <= ii < nm && (#[trigger] before[ii]).dirty
                                    ==> self.memos@[ii].dirty);
                            assert forall|mm: int|
                                0 <= mm < nm && (#[trigger] self.memos@[mm]).dirty
                                    && !pre_ms[mm].dirty implies !pre_ms[mm].disposed
                                && has_hot_dep(self.memos@, c, pre_ms[mm].deps@) by {
                                if mm == m {
                                    lemma_hot_dep_monotone(
                                        before,
                                        self.memos@,
                                        c,
                                        before[mm].deps@,
                                    );
                                } else {
                                    assert(before[mm].dirty == self.memos@[mm].dirty);
                                    if before[mm].dirty && !pre_ms[mm].dirty {
                                        lemma_hot_dep_monotone(
                                            before,
                                            self.memos@,
                                            c,
                                            pre_ms[mm].deps@,
                                        );
                                    }
                                }
                            }
                            assert forall|mm: int|
                                0 <= mm < nm && (#[trigger] self.memos@[mm]).dirty
                                    && !pass_pre[mm].dirty implies !pass_pre[mm].disposed
                                && has_hot_dep(self.memos@, c, pass_pre[mm].deps@) by {
                                if mm == m {
                                    lemma_hot_dep_monotone(
                                        before,
                                        self.memos@,
                                        c,
                                        before[mm].deps@,
                                    );
                                } else {
                                    if before[mm].dirty && !pass_pre[mm].dirty {
                                        lemma_hot_dep_monotone(
                                            before,
                                            self.memos@,
                                            c,
                                            pass_pre[mm].deps@,
                                        );
                                    }
                                }
                            }
                            if changed {
                                lemma_count_dirty_le(before, self.memos@, nm as int);
                            } else {
                                lemma_count_dirty_lt(pass_pre, self.memos@, nm as int, m as int);
                            }
                        }
                        changed = true;
                    }
                }
                m = m + 1;
            }
            if !changed {
                proof {
                    assert(dirty_closed(self.memos@, c));
                }
                done = true;
            } else {
                proof {
                    lemma_count_dirty_le(pre_ms, pass_pre, nm as int);
                    lemma_count_dirty_bound(self.memos@, nm as int);
                    lemma_count_dirty_bound(pre_ms, nm as int);
                }
                round = round + 1;
            }
        }
        proof {
            if !done {
                lemma_count_dirty_bound(self.memos@, nm as int);
                lemma_count_dirty_bound(pre_ms, nm as int);
                assert(false);
            }
        }

        // Notify the effects: one scheduler step for each effect that
        // subscribes to the written cell or to a memo this write flipped.
        let ghost ms_final = self.memos@;
        let ghost pre_es = pre.effects@;
        let ghost q0 = pre.queue@;
        let ne = self.effects.len();
        let mut e: usize = 0;
        while e < ne
            invariant
                e <= ne,
                ne == self.effects@.len(),
                ne == pre_es.len(),
                nm == self.memos@.len(),
                self.memos@ == ms_final,
                self.cells@ == cells_now,
                self.cells@.len() == pre.cells@.len(),
                self.memos@.len() == pre.memos@.len(),
                self.frames@ == pre.frames@,
                self.batch_depth == pre.batch_depth,
                self.runs_in_flush == pre.runs_in_flush,
                pre.wf(),
                pre_ms == pre.memos@,
                pre_ms.len() == nm,
                pre_es == pre.effects@,
                q0 == pre.queue@,
                snap@.len() == nm,
                forall|j: int| 0 <= j < nm ==> snap@[j] == (#[trigger] pre_ms[j]).dirty,
                forall|ee: int|
                    e <= ee < ne ==> (#[trigger] self.effects@[ee]) == pre_es[ee],
                forall|ee: int|
                    0 <= ee < e ==> (#[trigger] self.effects@[ee]).deps@ == pre_es[ee].deps@
                        && self.effects@[ee].state == (if effect_notified(
                        pre_ms,
                        ms_final,
                        c,
                        pre_es[ee].deps@,
                    ) {
                        sched_step(pre_es[ee].state)
                    } else {
                        pre_es[ee].state
                    }),
                self.queue@ == q0 + enqueued_after_write(pre_ms, ms_final, pre_es, c, e as int),
                forall|i: int|
                    0 <= i < self.queue@.len() ==> (#[trigger] self.queue@[i]) < ne && (
                    self.effects@[self.queue@[i] as int].state == EffectState::Scheduled
                        || self.effects@[self.queue@[i] as int].state == EffectState::Disposed),
                forall|i: int, j: int|
                    0 <= i < j < self.queue@.len() ==> self.queue@[i] != self.queue@[j],
                forall|ee: usize|
                    ee < ne && (#[trigger] self.effects@[ee as int]).state
                        == EffectState::Scheduled ==> self.queue@.contains(ee),
            decreases ne - e,
        {
            let ghost q_pre = self.queue@;
            proof {
                assert(self.effects@[e as int] == pre_es[e as int]);
                assert(pre.deps_valid(pre_es[e as int].deps@));
                assert forall|k: int|
                    0 <= k < self.effects@[e as int].deps@.len() implies self.src_valid(
                    #[trigger] self.effects@[e as int].deps@[k],
                ) by {
                    assert(pre.src_valid(pre_es[e as int].deps@[k]));
                }
            }
            let notified = self.effect_is_notified(e, c, &snap, Ghost(pre_ms));
            if notified {
                let st = self.effects[e].state;
                match st {
                    EffectState::Idle => {
                        self.effects[e].state = EffectState::Scheduled;
                        self.queue.push(e);
                        proof {
                            assert(!q_pre.contains(e));
                            assert forall|ii: int|
                                0 <= ii < self.queue@.len() implies (#[trigger] self.queue@[ii])
                                < ne && (self.effects@[self.queue@[ii] as int].state
                                == EffectState::Scheduled || self.effects@[self.queue@[
                                ii
                            ] as int].state == EffectState::Disposed) by {
                                if ii < q_pre.len() {
                                    assert(self.queue@[ii] == q_pre[ii]);
                                }
                            }
                            assert forall|ee: usize|
                                ee < ne && (#[trigger] self.effects@[ee as int]).state
                                    == EffectState::Scheduled implies self.queue@.contains(ee) by {
                                if ee == e {
                                    assert(self.queue@[q_pre.len() as int] == e);
                                } else {
                                    let wi = choose|wi: int|
                                        0 <= wi < q_pre.len() && q_pre[wi] == ee;
                                    assert(self.queue@[wi] == ee);
                                }
                            }
                        }
                    },
                    EffectState::Running => {
                        self.effects[e].state = EffectState::RunningRescheduled;
                    },
                    _ => {},
                }
            }
            proof {
                assert(self.queue@ =~= q0 + enqueued_after_write(
                    pre_ms,
                    ms_final,
                    pre_es,
                    c,
                    e + 1 as int,
                ));
            }
            e = e + 1;
        }
        proof {
            assert(effects_after_write(pre_ms, ms_final, pre_es, self.effects@, c));
            assert(self.wf());
        }
        Ok(())
    }

    /// Reads a memo. A clean memo serves its cached value without any
    /// re-evaluation, and the read is recorded so the enclosing computation
    /// subscribes to the memo itself, not to the memo's own sources. A dirty
    /// memo answers `NeedsEval`, asking the host to evaluate it between
    /// `start_memo_eval` and `finish_memo_eval` and changing nothing yet.
    /// Reading a disposed or unknown handle is reported.
    pub fn memo_get(&mut self, m: usize) -> (r: Result<MemoProbe<T>, ReactiveError>)
        requires
            old(self).wf(),
        ensures
            final(self).wf(),
            m < old(self).memos@.len() && !old(self).memos@[m as int].disposed && old(
                self,
            ).memos@[m as int].dirty ==> {
                &&& r == Ok::<MemoProbe<T>, ReactiveError>(MemoProbe::NeedsEval)
                &&& *final(self) == *old(self)
            },
            m < old(self).memos@.len() && !old(self).memos@[m as int].disposed && !old(
                self,
            ).memos@[m as int].dirty ==> {
                &&& old(self).memos@[m as int].cached matches Some(cv) && r == Ok::<
                    MemoProbe<T>,
                    ReactiveError,
                >(MemoProbe::Ready(cv))
                &&& old(self).tracked_read_ok(*final(self), Source::Memo(m))
            },
            !(m < old(self).memos@.len() && !old(self).memos@[m as int].disposed) ==> {
                &&& r == Err::<MemoProbe<T>, ReactiveError>(ReactiveError::UseAfterDispose)
                &&& *final(self) == *old(self)
            },
    {
        if m >= self.memos.len() || self.memos[m].disposed {
            return Err(ReactiveError::UseAfterDispose);
        }
        if self.memos[m].dirty {
            return Ok(MemoProbe::NeedsEval);
        }
        let v = match self.memos[m].cached {
            Some(v) => v,
            None => {
                proof {
                    assert(false);
                }
                return Err(ReactiveError::UseAfterDispose);
            },
        };
        self.record_read(Source::Memo(m));
        Ok(MemoProbe::Ready(v))
    }

    /// Opens an evaluation of memo `m`: a fresh tracking frame is pushed and
    /// the host evaluates the memo's function, reading its sources through
    /// the runtime, before calling `finish_memo_eval`. Asking to evaluate a
    /// memo that is already mid-evaluation is a reactive cycle and is
    /// reported without changing anything.
    pub fn start_memo_eval(&mut self, m: usize) -> (r: Result<(), ReactiveError>)
        requires
            old(self).wf(),
        ensures
            final(self).wf(),
            m < old(self).memos@.len() && !old(self).memos@[m as int].disposed && !(exists|f: int|
                0 <= f < old(self).frames@.len() && (#[trigger] old(self).frames@[f]).owner
                    == Owner::Memo(m)) ==> {
                &&& r == Ok::<(), ReactiveError>(())
                &&& final(self).frames@.len() == old(self).frames@.len() + 1
                &&& (forall|i: int|
                    0 <= i < old(self).frames@.len() ==> final(self).frames@[i] == old(
                        self,
                    ).frames@[i])
                &&& final(self).frames@[old(self).frames@.len() as int].owner == Owner::Memo(m)
                &&& final(self).frames@[old(self).frames@.len() as int].reads@.len() == 0
                &&& final(self).cells@ == old(self).cells@
                &&& final(self).memos@ == old(self).memos@
                &&& final(self).effects@ == old(self).effects@
                &&& final(self).queue@ == old(self).queue@
                &&& final(self).batch_depth == old(self).batch_depth
                &&& final(self).runs_in_flush == old(self).runs_in_flush
            },
            m < old(self).memos@.len() && !old(self).memos@[m as int].disposed && (exists|f: int|
                0 <= f < old(self).frames@.len() && (#[trigger] old(self).frames@[f]).owner
                    == Owner::Memo(m)) ==> {
                &&& r == Err::<(), ReactiveError>(ReactiveError::CycleExceeded)
                &&& *final(self) == *old(self)
            },
            !(m < old(self).memos@.len() && !old(self).memos@[m as int].disposed) ==> {
                &&& r == Err::<(), ReactiveError>(ReactiveError::UseAfterDispose)
                &&& *final(self) == *old(self)
            },
    {
        if m >= self.memos.len() || self.memos[m].disposed {
            return Err(ReactiveError::UseAfterDispose);
        }
        let nf = self.frames.len();
        let mut found = false;
        let mut f: usize = 0;
        while f < nf
            invariant
                f <= nf,
                nf == self.frames@.len(),
                found <==> exists|i: int|
                    0 <= i < f && (#[trigger] self.frames@[i]).owner == Owner::Memo(m),
            decreases nf - f,
        {
            if self.frames[f].owner == Owner::Memo(m) {
                proof {
                    assert(self.frames@[f as int].owner == Owner::Memo(m));
                }
                found = true;
            }
            f = f + 1;
        }
        if found {
            return Err(ReactiveError::CycleExceeded);
        }
        self.frames.push(Frame { owner: Owner::Memo(m), reads: Vec::new() });
        Ok(())
    }

    /// Closes the innermost evaluation, which must belong to memo `m`: the
    /// frame is popped, `v` becomes the cached value, the memo turns clean,
    /// its dependency list becomes exactly the captured read-set, and the
    /// memo itself is recorded as a read of the enclosing computation, if one
    /// is open.
    pub fn finish_memo_eval(&mut self, m: usize, v: T)
        requires
            old(self).wf(),
            old(self).frames@.len() > 0,
            old(self).frames@[old(self).frames@.len() - 1].owner == Owner::Memo(m),
            m < old(self).memos@.len(),
            !old(self).memos@[m as int].disposed,
        ensures
            final(self).wf(),
            final(self).cells@ == old(self).cells@,
            final(self).effects@ == old(self).effects@,
            final(self).queue@ == old(self).queue@,
            final(self).batch_depth == old(self).batch_depth,
            final(self).runs_in_flush == old(self).runs_in_flush,
            final(self).memos@.len() == old(self).memos@.len(),
            forall|i: int|
                0 <= i < old(self).memos@.len() && i != m ==> final(self).memos@[i] == old(
                    self,
                ).memos@[i],
            final(self).memos@[m as int].cached == Some(v),
            final(self).memos@[m as int].dirty == false,
            final(self).memos@[m as int].disposed == false,
            final(self).memos@[m as int].deps@ == old(self).frames@[old(self).frames@.len()
                - 1].reads@,
            frames_after_read(
                old(self).frames@.drop_last(),
                final(self).frames@,
                Source::Memo(m),
            ),
    {
        let fr = match self.frames.pop() {
            Some(f) => f,
            None => {
                proof {
                    assert(false);
                }
                return ;
            },
        };
        self.memos[m].deps = fr.reads;
        self.memos[m].cached = Some(v);
        self.memos[m].dirty = false;
        let nf = self.frames.len();
        if nf > 0 {
            let top = nf - 1;
            if !source_list_contains(&self.frames[top].reads, Source::Memo(m)) {
                self.frames[top].reads.push(Source::Memo(m));
            }
        }
    }

    /// Closes the innermost run, which must belong to effect `e`: the frame
    /// is popped and the effect's dependency list becomes exactly the
    /// captured read-set — stale subscriptions from earlier runs are
    /// dropped. A run that was notified meanwhile is scheduled again; one
    /// that was disposed mid-run stays disposed and keeps no dependencies.
    pub fn finish_effect_run(&mut self, e: usize)
        requires
            old(self).wf(),
            old(self).frames@.len() > 0,
            old(self).frames@[old(self).frames@.len() - 1].owner == Owner::Effect(e),
            e < old(self).effects@.len(),
            old(self).effects@[e as int].state == EffectState::Running || old(
                self,
            ).effects@[e as int].state == EffectState::RunningRescheduled || old(
                self,
            ).effects@[e as int].state == EffectState::Disposed,
        ensures
            final(self).wf(),
            final(self).frames@ == old(self).frames@.drop_last(),
            final(self).cells@ == old(self).cells@,
            final(self).memos@ == old(self).memos@,
            final(self).batch_depth == old(self).batch_depth,
            final(self).runs_in_flush == old(self).runs_in_flush,
            final(self).effects@.len() == old(self).effects@.len(),
            forall|i: int|
                0 <= i < old(self).effects@.len() && i != e ==> final(self).effects@[i] == old(
                    self,
                ).effects@[i],
            old(self).effects@[e as int].state == EffectState::Disposed ==> final(self).effects@[e as int]
                == old(self).effects@[e as int] && final(self).queue@ == old(self).queue@,
            old(self).effects@[e as int].state == EffectState::Running ==> {
                &&& final(self).effects@[e as int].state == EffectState::Idle
                &&& final(self).effects@[e as int].deps@ == old(self).frames@[old(
                    self,
                ).frames@.len() - 1].reads@
                &&& final(self).queue@ == old(self).queue@
            },
            old(self).effects@[e as int].state == EffectState::RunningRescheduled ==> {
                &&& final(self).effects@[e as int].state == EffectState::Scheduled
                &&& final(self).effects@[e as int].deps@ == old(self).frames@[old(
                    self,
                ).frames@.len() - 1].reads@
                &&& final(self).queue@ == old(self).queue@.push(e)
            },
    {
        let fr = match self.frames.pop() {
            Some(f) => f,
            None => {
                proof {
                    assert(false);
                }
                return ;
            },
        };
        let st = self.effects[e].state;
        match st {
            EffectState::Running => {
                self.effects[e].deps = fr.reads;
                self.effects[e].state = EffectState::Idle;
            },
            EffectState::RunningRescheduled => {
                self.effects[e].deps = fr.reads;
                self.effects[e].state = EffectState::Scheduled;
                let ghost q_pre = self.queue@;
                self.queue.push(e);
                proof {
                    assert(!q_pre.contains(e));
                    assert forall|ii: int|
                        0 <= ii < self.queue@.len() implies (#[trigger] self.queue@[ii])
                        < self.effects@.len() && (self.effects@[self.queue@[ii] as int].state
                        == EffectState::Scheduled || self.effects@[self.queue@[ii] as int].state
                        == EffectState::Disposed) by {
                        if ii < q_pre.len() {
                            assert(self.queue@[ii] == q_pre[ii]);
                        }
                    }
                    assert forall|ee: usize|
                        ee < self.effects@.len() && (#[trigger] self.effects@[ee as int]).state
                            == EffectState::Scheduled implies self.queue@.contains(ee) by {
                        if ee == e {
                            assert(self.queue@[q_pre.len() as int] == e);
                        } else {
                            let wi = choose|wi: int| 0 <= wi < q_pre.len() && q_pre[wi] == ee;
                            assert(self.queue@[wi] == ee);
                        }
                    }
                }
            },
            _ => {},
        }
    }

    /// Hands out the next effect of the flush pass, skipping entries that
    /// were disposed while queued. `Ok(Some(e))` means `e` has left the
    /// queue, is now running with a fresh tracking frame, and the host must
    /// run its body and call `finish_effect_run`. `Ok(None)` means the pass
    /// is complete. Each pass hands out at most `FLUSH_LIMIT` runs; asking
    /// for more while work is still queued is a reactive cycle: the pass is
    /// abandoned, the queued effects return to rest, the graph stays usable,
    /// and `CycleExceeded` is reported.
    #[verifier::rlimit(50)]
    pub fn take_next_effect(&mut self) -> (r: Result<Option<usize>, ReactiveError>)
        requires
            old(self).wf(),
            old(self).batch_depth == 0,
            old(self).frames@.len() == 0,
        ensures
            final(self).wf(),
            final(self).cells@ == old(self).cells@,
            final(self).memos@ == old(self).memos@,
            final(self).batch_depth == 0,
            r matches Ok(Some(e)) ==> {
                &&& old(self).runs_in_flush < FLUSH_LIMIT
                &&& final(self).runs_in_flush == old(self).runs_in_flush + 1
                &&& e < old(self).effects@.len()
                &&& old(self).effects@[e as int].state == EffectState::Scheduled
                &&& final(self).effects@.len() == old(self).effects@.len()
                &&& (forall|i: int|
                    0 <= i < old(self).effects@.len() && i != e ==> final(self).effects@[i]
                        == old(self).effects@[i])
                &&& final(self).effects@[e as int].state == EffectState::Running
                &&& final(self).effects@[e as int].deps@ == old(self).effects@[e as int].deps@
                &&& final(self).frames@.len() == 1
                &&& final(self).frames@[0].owner == Owner::Effect(e)
                &&& final(self).frames@[0].reads@.len() == 0
                &&& (exists|k: int|
                    {
                        &&& 0 <= k < old(self).queue@.len()
                        &&& old(self).queue@[k] == e
                        &&& final(self).queue@ =~= old(self).queue@.skip(k + 1)
                        &&& (forall|i: int|
                            0 <= i < k ==> old(self).effects@[#[trigger] old(
                                self,
                            ).queue@[i] as int].state == EffectState::Disposed)
                    })
            },
            r == Ok::<Option<usize>, ReactiveError>(None) ==> {
                &&& final(self).queue@.len() == 0
                &&& final(self).runs_in_flush == 0
                &&& final(self).effects@ == old(self).effects@
                &&& final(self).frames@ == old(self).frames@
                &&& (forall|i: int|
                    0 <= i < old(self).queue@.len() ==> old(self).effects@[#[trigger] old(
                        self,
                    ).queue@[i] as int].state == EffectState::Disposed)
            },
            r is Err ==> {
                &&& r == Err::<Option<usize>, ReactiveError>(ReactiveError::CycleExceeded)
                &&& old(self).runs_in_flush >= FLUSH_LIMIT
                &&& (exists|i: int|
                    0 <= i < old(self).queue@.len() && old(self).effects@[#[trigger] old(
                        self,
                    ).queue@[i] as int].state == EffectState::Scheduled)
                &&& final(self).queue@.len() == 0
                &&& final(self).runs_in_flush == 0
                &&& final(self).frames@ == old(self).frames@
                &&& final(self).effects@.len() == old(self).effects@.len()
                &&& (forall|ee: int|
                    0 <= ee < old(self).effects@.len() ==> (#[trigger] final(self).effects@[ee]).deps@
                        == old(self).effects@[ee].deps@ && final(self).effects@[ee].state == (
                    if old(self).effects@[ee].state == EffectState::Scheduled {
                        EffectState::Idle
                    } else {
                        old(self).effects@[ee].state
                    }))
            },
    {
        let ghost q_old = self.queue@;
        let ghost pre = *self;
        let ghost mut dropped: int = 0;
        while self.queue.len() > 0 && self.effects[self.queue[0]].state == EffectState::Disposed
            invariant
                self.wf(),
                0 <= dropped <= q_old.len(),
                self.queue@ == q_old.skip(dropped),
                forall|i: int|
                    0 <= i < dropped ==> pre.effects@[#[trigger] q_old[i] as int].state
                        == EffectState::Disposed,
                self.cells@ == pre.cells@,
                self.memos@ == pre.memos@,
                self.effects@ == pre.effects@,
                self.frames@ == pre.frames@,
                self.batch_depth == pre.batch_depth,
                self.runs_in_flush == pre.runs_in_flush,
                pre.frames@.len() == 0,
                pre.batch_depth == 0,
            decreases self.queue@.len(),
        {
            let ghost q_pre = self.queue@;
            proof {
                assert(self.effects@[q_pre[0] as int].state == EffectState::Disposed);
                assert(q_pre[0] == q_old[dropped]);
            }
            self.queue.remove(0);
            proof {
                dropped = dropped + 1;
                assert(self.queue@ =~= q_old.skip(dropped));
                assert forall|ee: usize|
                    ee < self.effects@.len() && (#[trigger] self.effects@[ee as int]).state
                        == EffectState::Scheduled implies self.queue@.contains(ee) by {
                    let wi = choose|wi: int| 0 <= wi < q_pre.len() && q_pre[wi] == ee;
                    assert(self.effects@[q_pre[wi] as int].state == EffectState::Scheduled);
                    assert(wi != 0);
                    assert(self.queue@[wi - 1] == ee);
                }
            }
        }
        if self.queue.len() == 0 {
            self.runs_in_flush = 0;
            return Ok(None);
        }
        assert(self.effects@[self.queue@[0] as int].state == EffectState::Scheduled);
        if self.runs_in_flush >= FLUSH_LIMIT {
            // Abandon the pass: every still-scheduled entry returns to rest.
            proof {
                assert(q_old[dropped] == self.queue@[0]);
                assert(pre.effects@[q_old[dropped] as int].state == EffectState::Scheduled);
            }
            let nq = self.queue.len();
            let ghost q_cur = self.queue@;
            let mut i: usize = 0;
            while i < nq
                invariant
                    i <= nq,
                    nq == self.queue@.len(),
                    self.queue@ == q_cur,
                    self.effects@.len() == pre.effects@.len(),
                    self.cells@ == pre.cells@,
                    self.memos@ == pre.memos@,
                    self.frames@ == pre.frames@,
                    self.batch_depth == pre.batch_depth,
                    self.runs_in_flush == pre.runs_in_flush,
                    forall|qi: int| 0 <= qi < nq ==> (#[trigger] q_cur[qi]) < pre.effects@.len(),
                    forall|qi: int, qj: int| 0 <= qi < qj < nq ==> q_cur[qi] != q_cur[qj],
                    forall|ee: usize|
                        ee < pre.effects@.len() && !q_cur.contains(ee) ==> (
                        #[trigger] self.effects@[ee as int]) == pre.effects@[ee as int],
                    forall|qi: int|
                        0 <= qi < i ==> (#[trigger] self.effects@[q_cur[qi] as int]).deps@
                            == pre.effects@[q_cur[qi] as int].deps@ && self.effects@[q_cur[
                        qi
                    ] as int].state == (if pre.effects@[q_cur[qi] as int].state
                            == EffectState::Scheduled {
                            EffectState::Idle
                        } else {
                            pre.effects@[q_cur[qi] as int].state
                        }),
                    forall|qi: int|
                        i <= qi < nq ==> (#[trigger] self.effects@[q_cur[qi] as int])
                            == pre.effects@[q_cur[qi] as int],
                decreases nq - i,
            {
                let qe = self.queue[i];
                if self.effects[qe].state == EffectState::Scheduled {
                    self.effects[qe].state = EffectState::Idle;
                }
                i = i + 1;
            }
            self.queue.clear();
            self.runs_in_flush = 0;
            let n_eff = self.effects.len();
            proof {
                assert(self.effects@.len() == n_eff);
                assert(pre.effects@.len() == n_eff);
                assert forall|ee: int|
                    0 <= ee < pre.effects@.len() implies (#[trigger] self.effects@[ee]).deps@
                    == pre.effects@[ee].deps@ && self.effects@[ee].state == (if pre.effects@[
                    ee
                ].state == EffectState::Scheduled {
                    EffectState::Idle
                } else {
                    pre.effects@[ee].state
                }) by {
                    let eeu = ee as usize;
                    assert(eeu as int == ee);
                    if q_cur.contains(eeu) {
                        let qi = choose|qi: int| 0 <= qi < q_cur.len() && q_cur[qi] == eeu;
                        assert(self.effects@[q_cur[qi] as int].state == (if pre.effects@[q_cur[
                            qi
                        ] as int].state == EffectState::Scheduled {
                            EffectState::Idle
                        } else {
                            pre.effects@[q_cur[qi] as int].state
                        }));
                    } else {
                        if pre.effects@[ee].state == EffectState::Scheduled {
                            assert(pre.queue@.contains(eeu));
                            let wi = choose|wi: int| 0 <= wi < q_old.len() && q_old[wi] == eeu;
                            if wi < dropped {
                                assert(pre.effects@[q_old[wi] as int].state
                                    == EffectState::Disposed);
                            } else {
                                assert(q_cur[wi - dropped] == eeu);
                            }
                        }
                    }
                }
            }
            return Err(ReactiveError::CycleExceeded);
        }
        let ghost q_pre = self.queue@;
        let ghost es_pre = self.effects@;
        let e = self.queue.remove(0);
        self.runs_in_flush = self.runs_in_flush + 1;
        self.effects[e].state = EffectState::Running;
        self.frames.push(Frame { owner: Owner::Effect(e), reads: Vec::new() });
        proof {
            assert(q_pre[0] == e);
            assert(q_old[dropped] == e);
            assert(self.queue@ =~= q_old.skip(dropped + 1));
            assert forall|ee: usize|
                ee < self.effects@.len() && (#[trigger] self.effects@[ee as int]).state
                    == EffectState::Scheduled implies self.queue@.contains(ee) by {
                assert(ee != e);
                assert(es_pre[ee as int].state == EffectState::Scheduled);
                let wi = choose|wi: int| 0 <= wi < q_pre.len() && q_pre[wi] == ee;
                assert(q_pre[0] != ee);
                assert(self.queue@[wi - 1] == ee);
            }
            assert(exists|k: int|
                {
                    &&& 0 <= k < q_old.len()
                    &&& q_old[k] == e
                    &&& self.queue@ =~= q_old.skip(k + 1)
                    &&& (forall|i: int|
                        0 <= i < k ==> pre.effects@[#[trigger] q_old[i] as int].state
                            == EffectState::Disposed)
                }) by {
                assert({
                    &&& 0 <= dropped < q_old.len()
                    &&& q_old[dropped] == e
                    &&& self.queue@ =~= q_old.skip(dropped + 1)
                    &&& (forall|i: int|
                        0 <= i < dropped ==> pre.effects@[#[trigger] q_old[i] as int].state
                            == EffectState::Disposed)
                });
            }
        }
        Ok(Some(e))
    }

    /// The well-formedness conjuncts that do not mention the memo arena's
    /// contents, only its length; used while invalidation is propagating.
    pub open spec fn wf_memoless(self) -> bool {
        &&& (forall|e: int|
            0 <= e < self.effects@.len() ==> self.deps_valid((#[trigger] self.effects@[e]).deps@))
        &&& (forall|f: int|
            0 <= f < self.frames@.len() ==> self.owner_valid((#[trigger] self.frames@[f]).owner)
                && self.deps_valid(self.frames@[f].reads@))
        &&& (forall|i: int|
            0 <= i < self.queue@.len() ==> (#[trigger] self.queue@[i]) < self.effects@.len() && (
            self.effects@[self.queue@[i] as int].state == EffectState::Scheduled
                || self.effects@[self.queue@[i] as int].state == EffectState::Disposed))
        &&& (forall|i: int, j: int|
            0 <= i < j < self.queue@.len() ==> self.queue@[i] != self.queue@[j])
        &&& (forall|e: usize|
            e < self.effects@.len() && (#[trigger] self.effects@[e as int]).state
                == EffectState::Scheduled ==> self.queue@.contains(e))
    }
}

/// The scheduler transition one notification applies to an effect: idle
/// effects are scheduled, running ones are marked for re-scheduling, and a
/// notification is a no-op on already scheduled or disposed effects — an
/// effect is queued at most once per flush however many of its dependencies
/// change.
pub open spec fn sched_step(st: EffectState) -> EffectState {
    match st {
        EffectState::Idle => EffectState::Scheduled,
        EffectState::Scheduled => EffectState::Scheduled,
        EffectState::Running => EffectState::RunningRescheduled,
        EffectState::RunningRescheduled => EffectState::RunningRescheduled,
        EffectState::Disposed => EffectState::Disposed,
    }
}

/// A dependency that carries invalidation after a write to cell `c`: the
/// written cell itself, or a memo that is dirty in `ms`.
pub open spec fn hot_dep<T>(ms: Seq<MemoNode<T>>, c: usize, d: Source) -> bool {
    match d {
        Source::Cell(c2) => c2 == c,
        Source::Memo(j) => j < ms.len() && ms[j as int].dirty,
    }
}

pub open spec fn has_hot_dep<T>(ms: Seq<MemoNode<T>>, c: usize, deps: Seq<Source>) -> bool {
    exists|k: int| 0 <= k < deps.len() && hot_dep(ms, c, #[trigger] deps[k])
}

/// Invalidation has propagated fully: no clean, undisposed memo still has a
/// hot dependency.
pub open spec fn dirty_closed<T>(ms: Seq<MemoNode<T>>, c: usize) -> bool {
    forall|m: int|
        0 <= m < ms.len() && !(#[trigger] ms[m]).dirty && !ms[m].disposed ==> !has_hot_dep(
            ms,
            c,
            ms[m].deps@,
        )
}

/// Pointwise relation of the memo arena across one write to cell `c`: only
/// dirty flags change, they only go from clean to dirty, and every flip is
/// justified by a hot dependency — so a memo with no dependencies is never
/// touched by any write.
pub open spec fn memos_flip_ok<T>(pre: Seq<MemoNode<T>>, cur: Seq<MemoNode<T>>, c: usize) -> bool {
    &&& cur.len() == pre.len()
    &&& (forall|m: int|
        0 <= m < pre.len() ==> (#[trigger] cur[m]).cached == pre[m].cached && cur[m].deps@
            == pre[m].deps@ && cur[m].disposed == pre[m].disposed)
    &&& (forall|m: int| 0 <= m < pre.len() && (#[trigger] pre[m]).dirty ==> cur[m].dirty)
    &&& (forall|m: int|
        0 <= m < pre.len() && (#[trigger] cur[m]).dirty && !pre[m].dirty ==> !pre[m].disposed
            && has_hot_dep(cur, c, pre[m].deps@))
}

/// What one write to cell `c` does to the memo arena.
pub open spec fn memos_after_write<T>(
    pre: Seq<MemoNode<T>>,
    post: Seq<MemoNode<T>>,
    c: usize,
) -> bool {
    memos_flip_ok(pre, post, c) && dirty_closed(post, c)
}

/// The dependency was touched by this very write: it is the written cell, or
/// a memo this write flipped from clean to dirty.
pub open spec fn notified_dep<T>(
    pre_ms: Seq<MemoNode<T>>,
    post_ms: Seq<MemoNode<T>>,
    c: usize,
    d: Source,
) -> bool {
    match d {
        Source::Cell(c2) => c2 == c,
        Source::Memo(j) => j < post_ms.len() && j < pre_ms.len() && post_ms[j as int].dirty
            && !pre_ms[j as int].dirty,
    }
}

/// The effect subscribes to something this write touched, so it gets one
/// notification.
pub open spec fn effect_notified<T>(
    pre_ms: Seq<MemoNode<T>>,
    post_ms: Seq<MemoNode<T>>,
    c: usize,
    deps: Seq<Source>,
) -> bool {
    exists|k: int| 0 <= k < deps.len() && notified_dep(pre_ms, post_ms, c, #[trigger] deps[k])
}

/// What one write to cell `c` does to the effect arena: dependency lists are
/// untouched, and exactly the notified effects take one scheduler step.
pub open spec fn effects_after_write<T>(
    pre_ms: Seq<MemoNode<T>>,
    post_ms: Seq<MemoNode<T>>,
    pre_es: Seq<EffectNode>,
    post_es: Seq<EffectNode>,
    c: usize,
) -> bool {
    &&& post_es.len() == pre_es.len()
    &&& (forall|e: int|
        0 <= e < pre_es.len() ==> (#[trigger] post_es[e]).deps@ == pre_es[e].deps@
            && post_es[e].state == (if effect_notified(pre_ms, post_ms, c, pre_es[e].deps@) {
            sched_step(pre_es[e].state)
        } else {
            pre_es[e].state
        }))
}

/// The handles of the effects a write to `c` newly queues, in handle order:
/// those below `upto` that were idle and are notified.
pub open spec fn enqueued_after_write<T>(
    pre_ms: Seq<MemoNode<T>>,
    post_ms: Seq<MemoNode<T>>,
    pre_es: Seq<EffectNode>,
    c: usize,
    upto: int,
) -> Seq<usize>
    decreases upto,
{
    if upto <= 0 {
        Seq::empty()
    } else {
        let rest = enqueued_after_write(pre_ms, post_ms, pre_es, c, upto - 1);
        if pre_es[upto - 1].state == EffectState::Idle && effect_notified(
            pre_ms,
            post_ms,
            c,
            pre_es[upto - 1].deps@,
        ) {
            rest.push((upto - 1) as usize)
        } else {
            rest
        }
    }
}

/// How many of the first `upto` memos are dirty.
pub open spec fn count_dirty<T>(ms: Seq<MemoNode<T>>, upto: int) -> int
    decreases upto,
{
    if upto <= 0 {
        0
    } else {
        count_dirty(ms, upto - 1) + if ms[upto - 1].dirty {
            1int
        } else {
            0int
        }
    }
}

proof fn lemma_count_dirty_bound<T>(ms: Seq<MemoNode<T>>, upto: int)
    requires
        0 <= upto <= ms.len(),
    ensures
        0 <= count_dirty(ms, upto) <= upto,
    decreases upto,
{
    if upto > 0 {
        lemma_count_dirty_bound(ms, upto - 1);
    }
}

proof fn lemma_count_dirty_le<T>(a: Seq<MemoNode<T>>, b: Seq<MemoNode<T>>, upto: int)
    requires
        a.len() == b.len(),
        0 <= upto <= a.len(),
        forall|i: int| 0 <= i < a.len() && (#[trigger] a[i]).dirty ==> b[i].dirty,
    ensures
        count_dirty(a, upto) <= count_dirty(b, upto),
    decreases upto,
{
    if upto > 0 {
        lemma_count_dirty_le(a, b, upto - 1);
    }
}

proof fn lemma_count_dirty_lt<T>(a: Seq<MemoNode<T>>, b: Seq<MemoNode<T>>, upto: int, w: int)
    requires
        a.len() == b.len(),
        0 <= upto <= a.len(),
        forall|i: int| 0 <= i < a.len() && (#[trigger] a[i]).dirty ==> b[i].dirty,
        0 <= w < upto,
        b[w].dirty,
        !a[w].dirty,
    ensures
        count_dirty(a, upto) < count_dirty(b, upto),
    decreases upto,
{
    if w == upto - 1 {
        lemma_count_dirty_le(a, b, upto - 1);
    } else {
        lemma_count_dirty_lt(a, b, upto - 1, w);
    }
}

/// A hot justification survives further flips: dirtiness only grows.
proof fn lemma_hot_dep_monotone<T>(
    a: Seq<MemoNode<T>>,
    b: Seq<MemoNode<T>>,
    c: usize,
    deps: Seq<Source>,
)
    requires
        a.len() == b.len(),
        forall|i: int| 0 <= i < a.len() && (#[trigger] a[i]).dirty ==> b[i].dirty,
        has_hot_dep(a, c, deps),
    ensures
        has_hot_dep(b, c, deps),
{
    let k = choose|k: int| 0 <= k < deps.len() && hot_dep(a, c, #[trigger] deps[k]);
    assert(hot_dep(b, c, deps[k]));
}

/// Law: a write queues only effects that were at rest. Every handle that
/// `enqueued_after_write` adds to the queue belonged to an idle effect, so an
/// effect that is already scheduled — because an earlier write in the same
/// batch notified it — is never queued a second time: together with
/// `sched_step`, which leaves a scheduled effect scheduled, and the queue
/// well-formedness of `Runtime::wf` (no handle appears twice), an effect runs
/// at most once per flush however many writes notified it, and its run then
/// reads the final values through `read_cell`.
pub proof fn lemma_write_queues_only_idle<T>(
    pre_ms: Seq<MemoNode<T>>,
    post_ms: Seq<MemoNode<T>>,
    pre_es: Seq<EffectNode>,
    c: usize,
    upto: int,
)
    requires
        0 <= upto <= pre_es.len(),
        pre_es.len() <= usize::MAX,
    ensures
        forall|i: int|
            0 <= i < enqueued_after_write(pre_ms, post_ms, pre_es, c, upto).len()
                ==> pre_es[#[trigger] enqueued_after_write(pre_ms, post_ms, pre_es, c, upto)[i] as int].state
                == EffectState::Idle,
    decreases upto,
{
    if upto > 0 {
        lemma_write_queues_only_idle(pre_ms, post_ms, pre_es, c, upto - 1);
    }
}

/// Law: a memo with no dependencies is never invalidated by any write — once
/// it has evaluated, `memo_get` serves its cached value forever and it never
/// evaluates again.
pub proof fn lemma_no_deps_memo_keeps_cache<T>(
    pre: Seq<MemoNode<T>>,
    post: Seq<MemoNode<T>>,
    c: usize,
    m: int,
)
    requires
        memos_after_write(pre, post, c),
        0 <= m < pre.len(),
        pre[m].deps@.len() == 0,
    ensures
        post[m].dirty == pre[m].dirty,
        post[m].cached == pre[m].cached,
        post[m].deps@.len() == 0,
{
    if post[m].dirty && !pre[m].dirty {
        let k = choose|k: int| 0 <= k < pre[m].deps@.len() && hot_dep(post, c, pre[m].deps@[k]);
        assert(false);
    }
}

/// Law: disposal is terminal under writes. A disposed effect is never
/// notified back to life — `sched_step` keeps it disposed — and it is never
/// among the handles a write queues, since only idle effects are queued; at
/// flush time `take_next_effect` hands out only effects that were scheduled,
/// so a disposed effect is never run again whatever is written.
pub proof fn lemma_disposed_effect_stays_disposed<T>(
    pre_ms: Seq<MemoNode<T>>,
    post_ms: Seq<MemoNode<T>>,
    pre_es: Seq<EffectNode>,
    post_es: Seq<EffectNode>,
    c: usize,
    e: int,
)
    requires
        effects_after_write(pre_ms, post_ms, pre_es, post_es, c),
        0 <= e < pre_es.len(),
        pre_es.len() <= usize::MAX,
        pre_es[e].state == EffectState::Disposed,
    ensures
        post_es[e].state == EffectState::Disposed,
        forall|i: int|
            0 <= i < enqueued_after_write(pre_ms, post_ms, pre_es, c, pre_es.len() as int).len()
                ==> #[trigger] enqueued_after_write(
                pre_ms,
                post_ms,
                pre_es,
                c,
                pre_es.len() as int,
            )[i] != e,
{
    lemma_write_queues_only_idle(pre_ms, post_ms, pre_es, c, pre_es.len() as int);
    assert forall|i: int|
        0 <= i < enqueued_after_write(pre_ms, post_ms, pre_es, c, pre_es.len() as int).len()
            implies #[trigger] enqueued_after_write(
        pre_ms,
        post_ms,
        pre_es,
        c,
        pre_es.len() as int,
    )[i] != e by {
        lemma_enqueued_in_bounds(pre_ms, post_ms, pre_es, c, pre_es.len() as int);
        let h = enqueued_after_write(pre_ms, post_ms, pre_es, c, pre_es.len() as int)[i];
        assert(pre_es[h as int].state == EffectState::Idle);
    }
}

/// Every handle `enqueued_after_write` yields is in bounds.
proof fn lemma_enqueued_in_bounds<T>(
    pre_ms: Seq<MemoNode<T>>,
    post_ms: Seq<MemoNode<T>>,
    pre_es: Seq<EffectNode>,
    c: usize,
    upto: int,
)
    requires
        0 <= upto <= pre_es.len(),
        pre_es.len() <= usize::MAX,
    ensures
        forall|i: int|
            0 <= i < enqueued_after_write(pre_ms, post_ms, pre_es, c, upto).len()
                ==> (#[trigger] enqueued_after_write(pre_ms, post_ms, pre_es, c, upto)[i] as int)
                < pre_es.len(),
    decreases upto,
{
    if upto > 0 {
        lemma_enqueued_in_bounds(pre_ms, post_ms, pre_es, c, upto - 1);
        let rest = enqueued_after_write(pre_ms, post_ms, pre_es, c, upto - 1);
        let cur = enqueued_after_write(pre_ms, post_ms, pre_es, c, upto);
        assert forall|i: int| 0 <= i < cur.len() implies (cur[i] as int) < pre_es.len() by {
            if pre_es[upto - 1].state == EffectState::Idle && effect_notified(
                pre_ms,
                post_ms,
                c,
                pre_es[upto - 1].deps@,
            ) {
                assert(cur == rest.push((upto - 1) as usize));
                if i < rest.len() {
                    assert(cur[i] == rest[i]);
                } else {
                    assert(cur[i] == (upto - 1) as usize);
                }
            } else {
                assert(cur == rest);
            }
        }
    }
}

/// Reports whether `v` holds the source `s`.
fn source_list_contains(v: &Vec<Source>, s: Source) -> (r: bool)
    ensures
        r <==> v@.contains(s),
{
    let n = v.len();
    let mut k: usize = 0;
    while k < n
        invariant
            k <= n,
            n == v@.len(),
            forall|i: int| 0 <= i < k ==> v@[i] != s,
        decreases n - k,
    {
        if v[k] == s {
            return true;
        }
        k = k + 1;
    }
    false
}

} // verus!
