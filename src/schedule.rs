use vstd::prelude::*;

verus! {

/// Period of the main loop, in milliseconds.
pub const TICK_MS: u64 = 100;

/// Minimum time between two refreshes caused by structural changes.
pub const DEBOUNCE_MS: u64 = 300;

/// The main loop's refresh policy: structural-change signals set a pending
/// flag, and a pending refresh runs once indexing is over and the debounce
/// interval since the last refresh has passed.
pub struct RefreshScheduler {
    pub pending: bool,
    pub last_refresh_ms: u64,
}

/// What one tick sees.
pub struct Tick {
    pub now_ms: u64,
    pub signal: bool,
    pub indexing: bool,
}

/// The refresh policy's state: (pending, time of the last refresh).
pub type SchedState = (bool, u64);

pub open spec fn sched_view(s: RefreshScheduler) -> SchedState {
    (s.pending, s.last_refresh_ms)
}

/// Whether a tick at `now` may refresh after a refresh at `last`.
pub open spec fn debounced(last: u64, now: u64) -> bool {
    now as int - last as int >= DEBOUNCE_MS as int
}

/// One tick: the state after it, and whether it refreshes.
pub open spec fn tick_step(s: SchedState, t: Tick) -> (SchedState, bool) {
    let pending = s.0 || t.signal;
    if pending && !t.indexing && debounced(s.1, t.now_ms) {
        ((false, t.now_ms), true)
    } else {
        ((pending, s.1), false)
    }
}

/// The state after a run of ticks.
pub open spec fn run_state(s: SchedState, ticks: Seq<Tick>) -> SchedState
    decreases ticks.len(),
{
    if ticks.len() == 0 {
        s
    } else {
        tick_step(run_state(s, ticks.drop_last()), ticks.last()).0
    }
}

/// The number of refreshes in a run of ticks.
pub open spec fn refresh_count(s: SchedState, ticks: Seq<Tick>) -> nat
    decreases ticks.len(),
{
    if ticks.len() == 0 {
        0
    } else {
        refresh_count(s, ticks.drop_last()) + if tick_step(run_state(s, ticks.drop_last()), ticks.last()).1 {
            1nat
        } else {
            0nat
        }
    }
}

pub open spec fn any_signal(ticks: Seq<Tick>) -> bool {
    exists|i: int| 0 <= i < ticks.len() && (#[trigger] ticks[i]).signal
}

impl RefreshScheduler {
    /// A scheduler whose debounce interval starts at `now_ms`.
    pub fn new(now_ms: u64) -> (r: RefreshScheduler)
        ensures
            sched_view(r) == (false, now_ms),
    {
        RefreshScheduler { pending: false, last_refresh_ms: now_ms }
    }

    /// Records a full rescan made outside the policy (asked for by the user,
    /// or the background scan's result): any rescan covers the structural
    /// changes signalled before it, so the pending flag is cleared whatever
    /// triggered it. The debounce timer is left alone.
    pub fn clear_pending(&mut self)
        ensures
            sched_view(*final(self)) == (false, old(self).last_refresh_ms),
    {
        self.pending = false;
    }

    /// Takes in one tick; returns whether a full refresh is due now.
    pub fn tick(&mut self, now_ms: u64, signal: bool, indexing: bool) -> (r: bool)
        ensures
            (sched_view(*final(self)), r) == tick_step(
                sched_view(*old(self)),
                Tick { now_ms, signal, indexing },
            ),
    {
        if signal {
            self.pending = true;
        }
        if self.pending && !indexing && now_ms >= self.last_refresh_ms && now_ms - self.last_refresh_ms >= DEBOUNCE_MS {
            self.pending = false;
            self.last_refresh_ms = now_ms;
            true
        } else {
            false
        }
    }
}

/// Ticks that all fall before the debounce interval since the last refresh
/// has passed refresh nothing, and leave a refresh pending exactly when one
/// was pending or a signal came.
pub proof fn lemma_burst_inside_interval(s: SchedState, ticks: Seq<Tick>)
    requires
        forall|i: int| 0 <= i < ticks.len() ==> !debounced(s.1, (#[trigger] ticks[i]).now_ms),
    ensures
        refresh_count(s, ticks) == 0,
        run_state(s, ticks) == (s.0 || any_signal(ticks), s.1),
    decreases ticks.len(),
{
    if ticks.len() > 0 {
        let init = ticks.drop_last();
        assert forall|i: int| 0 <= i < init.len() implies !debounced(s.1, (#[trigger] init[i]).now_ms) by {
            assert(init[i] == ticks[i]);
        }
        lemma_burst_inside_interval(s, init);
        assert(ticks.last() == ticks[ticks.len() - 1]);
        if any_signal(ticks) {
            if !ticks.last().signal {
                let i = choose|i: int| 0 <= i < ticks.len() && (#[trigger] ticks[i]).signal;
                assert(init[i] == ticks[i]);
                assert(any_signal(init));
            }
        } else {
            assert forall|i: int| 0 <= i < init.len() implies !(#[trigger] init[i]).signal by {
                assert(init[i] == ticks[i]);
            }
        }
    }
}

/// Any number of structural-change signals that arrive within one debounce
/// interval after a refresh lead to exactly one refresh: none inside the
/// interval, and one at the first later tick that is not held back by
/// indexing.
pub proof fn lemma_debounce_single_refresh(s: SchedState, ticks: Seq<Tick>, last: Tick)
    requires
        !s.0,
        any_signal(ticks),
        forall|i: int| 0 <= i < ticks.len() ==> !debounced(s.1, (#[trigger] ticks[i]).now_ms),
        debounced(s.1, last.now_ms),
        !last.indexing,
    ensures
        refresh_count(s, ticks.push(last)) == 1,
{
    lemma_burst_inside_interval(s, ticks);
    assert(ticks.push(last).drop_last() =~= ticks);
}

/// Within any stretch of ticks shorter than the debounce interval, at most
/// one refresh happens.
pub proof fn lemma_at_most_one_refresh_per_interval(s: SchedState, ticks: Seq<Tick>)
    requires
        ticks.len() > 0,
        forall|i: int, j: int| 0 <= i <= j < ticks.len() ==> ticks[i].now_ms <= ticks[j].now_ms,
        (ticks.last().now_ms as int) - (ticks[0].now_ms as int) < DEBOUNCE_MS as int,
        s.1 <= ticks[0].now_ms,
    ensures
        refresh_count(s, ticks) <= 1,
    decreases ticks.len(),
{
    let init = ticks.drop_last();
    assert(ticks.last() == ticks[ticks.len() - 1]);
    if init.len() > 0 {
        assert(init[0] == ticks[0]);
        assert(init.last() == ticks[ticks.len() - 2]);
        assert forall|i: int, j: int| 0 <= i <= j < init.len() implies init[i].now_ms <= init[j].now_ms by {
            assert(init[i] == ticks[i] && init[j] == ticks[j]);
        }
        lemma_at_most_one_refresh_per_interval(s, init);
        lemma_last_refresh_time(s, init);
        assert(init.last().now_ms <= ticks.last().now_ms);
        if refresh_count(s, init) == 1 {
            let st = run_state(s, init);
            assert(st.1 >= ticks[0].now_ms);
            assert(!debounced(st.1, ticks.last().now_ms));
            assert(!tick_step(st, ticks.last()).1);
        }
    } else {
        assert(refresh_count(s, init) == 0);
    }
}

/// The time of the last refresh never moves backwards, and a refresh sets it
/// to a tick's time.
proof fn lemma_last_refresh_time(s: SchedState, ticks: Seq<Tick>)
    requires
        ticks.len() > 0,
        s.1 <= ticks[0].now_ms,
        forall|i: int, j: int| 0 <= i <= j < ticks.len() ==> ticks[i].now_ms <= ticks[j].now_ms,
    ensures
        run_state(s, ticks).1 >= s.1,
        refresh_count(s, ticks) > 0 ==> run_state(s, ticks).1 >= ticks[0].now_ms,
        run_state(s, ticks).1 <= ticks.last().now_ms,
    decreases ticks.len(),
{
    let init = ticks.drop_last();
    assert(ticks.last() == ticks[ticks.len() - 1]);
    if init.len() > 0 {
        assert(init[0] == ticks[0]);
        assert(init.last() == ticks[ticks.len() - 2]);
        assert forall|i: int, j: int| 0 <= i <= j < init.len() implies init[i].now_ms <= init[j].now_ms by {
            assert(init[i] == ticks[i] && init[j] == ticks[j]);
        }
        lemma_last_refresh_time(s, init);
    } else {
        assert(run_state(s, init) == s);
        assert(refresh_count(s, init) == 0);
    }
    assert(ticks[0].now_ms <= ticks[ticks.len() - 1].now_ms);
}

/// What the main loop does when the open file changed on disk.
#[derive(Debug, Clone, Copy, PartialEq, Eq, Structural)]
pub enum FileAction {
    /// No change was signalled, or no file is open.
    Nothing,
    /// Reload the buffer from disk.
    Reload,
    /// Keep the buffer and flag the conflict.
    MarkConflict,
}

/// Decides how to react to change signals for the open file: reload a
/// buffer without unsaved edits, flag a conflict for one with them.
pub fn on_file_signal(changed: bool, file_open: bool, modified: bool) -> (r: FileAction)
    ensures
        r == file_action(changed, file_open, modified),
{
    if !changed || !file_open {
        FileAction::Nothing
    } else if modified {
        FileAction::MarkConflict
    } else {
        FileAction::Reload
    }
}

pub open spec fn file_action(changed: bool, file_open: bool, modified: bool) -> FileAction {
    if !changed || !file_open {
        FileAction::Nothing
    } else if modified {
        FileAction::MarkConflict
    } else {
        FileAction::Reload
    }
}

/// However many change signals arrive while the buffer has unsaved edits,
/// none of them leads to a reload that would overwrite the buffer; each
/// one flags the conflict instead.
pub proof fn lemma_unsaved_edits_never_reloaded(signals: Seq<bool>)
    ensures
        forall|i: int|
            0 <= i < signals.len() ==> file_action(#[trigger] signals[i], true, true) != FileAction::Reload,
        forall|i: int|
            0 <= i < signals.len() && #[trigger] signals[i] ==> file_action(signals[i], true, true)
                == FileAction::MarkConflict,
{
}

} // verus!
