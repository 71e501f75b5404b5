//! The lifecycle of a module within one pass of the host. The host performs
//! the action that the lifecycle asks for and reports what came of it.

use crate::host::error::{all_modules_failed_to_unload, ModuleError};
use vstd::prelude::*;

verus! {

/// Where a module stands in its lifecycle.
#[derive(Debug, Clone, Copy, PartialEq, Eq, Structural)]
pub enum ModuleState {
    /// Its file has been found.
    Discovered,
    /// Its library is open.
    Loaded,
    /// Its startup has returned.
    Started,
    /// Its shutdown has returned.
    Stopped,
    /// Its library has been released after shutdown.
    Unloaded,
    /// A step has failed; nothing more is called in it.
    Failed,
}

/// What the host does next with a module.
#[derive(Debug, Clone, Copy, PartialEq, Eq, Structural)]
pub enum HostAction {
    /// Open the shared library.
    OpenLibrary,
    /// Resolve `module_startup` and call it.
    CallStartup,
    /// Resolve `module_shutdown` and call it.
    CallShutdown,
    /// Release the library.
    CloseLibrary,
    /// Nothing: the pass is over for this module.
    Finish,
}

/// What came of an action.
#[derive(Debug, Clone, Copy, PartialEq, Eq, Structural)]
pub enum ModuleEvent {
    /// The library is open.
    Opened,
    /// The library could not be opened.
    OpenFailed,
    /// `module_startup` was called and has returned.
    StartupReturned,
    /// The library has no `module_startup`.
    StartupMissing,
    /// `module_shutdown` was called and has returned.
    ShutdownReturned,
    /// The library has no `module_shutdown`.
    ShutdownMissing,
    /// The library has been released.
    Closed,
    /// Releasing the library failed; the handle is gone all the same.
    CloseFailed,
}

/// A module in one pass of the host: its state, whether the host still
/// holds its library, and whether its startup has returned.
#[derive(Debug, Clone, Copy, PartialEq, Eq, Structural)]
pub struct ModuleRun {
    /// Where the module stands.
    pub state: ModuleState,
    /// Whether the host holds the library of the module.
    pub library_open: bool,
    /// Whether the startup of the module was called and has returned.
    pub started: bool,
}

/// How far a state is along the lifecycle. Both final states come last.
pub open spec fn rank(state: ModuleState) -> nat {
    match state {
        ModuleState::Discovered => 0,
        ModuleState::Loaded => 1,
        ModuleState::Started => 2,
        ModuleState::Stopped => 3,
        ModuleState::Unloaded => 4,
        ModuleState::Failed => 4,
    }
}

/// The action that a module run asks for.
pub open spec fn action_of(run: ModuleRun) -> HostAction {
    match run.state {
        ModuleState::Discovered => HostAction::OpenLibrary,
        ModuleState::Loaded => HostAction::CallStartup,
        ModuleState::Started => HostAction::CallShutdown,
        ModuleState::Stopped => HostAction::CloseLibrary,
        ModuleState::Unloaded => HostAction::Finish,
        ModuleState::Failed => if run.library_open {
            HostAction::CloseLibrary
        } else {
            HostAction::Finish
        },
    }
}

/// The run after `event` has been reported. An event that does not answer
/// the action asked for fails the module.
pub open spec fn after_event(run: ModuleRun, event: ModuleEvent) -> ModuleRun {
    match (run.state, event) {
        (ModuleState::Discovered, ModuleEvent::Opened) => ModuleRun {
            state: ModuleState::Loaded,
            library_open: true,
            started: run.started,
        },
        (ModuleState::Loaded, ModuleEvent::StartupReturned) => ModuleRun {
            state: ModuleState::Started,
            library_open: true,
            started: true,
        },
        (ModuleState::Started, ModuleEvent::ShutdownReturned) => ModuleRun {
            state: ModuleState::Stopped,
            library_open: true,
            started: run.started,
        },
        (ModuleState::Stopped, ModuleEvent::Closed) => ModuleRun {
            state: ModuleState::Unloaded,
            library_open: false,
            started: run.started,
        },
        (ModuleState::Unloaded, _) => run,
        (_, ModuleEvent::Closed) => ModuleRun {
            state: ModuleState::Failed,
            library_open: false,
            started: run.started,
        },
        (_, ModuleEvent::CloseFailed) => ModuleRun {
            state: ModuleState::Failed,
            library_open: false,
            started: run.started,
        },
        _ => ModuleRun {
            state: ModuleState::Failed,
            library_open: run.library_open,
            started: run.started,
        },
    }
}

/// Whether `event` reports what came of `action`.
pub open spec fn answers(action: HostAction, event: ModuleEvent) -> bool {
    match action {
        HostAction::OpenLibrary => event == ModuleEvent::Opened || event
            == ModuleEvent::OpenFailed,
        HostAction::CallStartup => event == ModuleEvent::StartupReturned || event
            == ModuleEvent::StartupMissing,
        HostAction::CallShutdown => event == ModuleEvent::ShutdownReturned || event
            == ModuleEvent::ShutdownMissing,
        HostAction::CloseLibrary => event == ModuleEvent::Closed || event
            == ModuleEvent::CloseFailed,
        HostAction::Finish => false,
    }
}

/// The most actions that a module run can still ask for.
pub open spec fn actions_left(run: ModuleRun) -> nat {
    match run.state {
        ModuleState::Discovered => 4,
        ModuleState::Loaded => 3,
        ModuleState::Started => 2,
        ModuleState::Stopped => 1,
        ModuleState::Unloaded => 0,
        ModuleState::Failed => if run.library_open {
            1
        } else {
            0
        },
    }
}

/// A run that is told what came of the action it asked for has fewer
/// actions left: every pass comes to an end. A run asks for no action just
/// when none is left.
pub proof fn lemma_answers_use_up_actions(run: ModuleRun, event: ModuleEvent)
    ensures
        answers(action_of(run), event) ==> actions_left(after_event(run, event)) < actions_left(
            run,
        ),
        action_of(run) == HostAction::Finish <==> actions_left(run) == 0,
{
}

/// The run after all of `events` have been reported, from discovery on.
pub open spec fn run_after(events: Seq<ModuleEvent>) -> ModuleRun
    decreases events.len(),
{
    if events.len() == 0 {
        ModuleRun { state: ModuleState::Discovered, library_open: false, started: false }
    } else {
        after_event(run_after(events.drop_last()), events.last())
    }
}

/// The action that the host is asked for after the first `n` of `events`.
pub open spec fn action_at(events: Seq<ModuleEvent>, n: int) -> HostAction {
    action_of(run_after(events.take(n)))
}

impl ModuleRun {
    /// A module whose file has been found.
    pub fn new() -> (run: Self)
        ensures
            run == run_after(Seq::empty()),
    {
        ModuleRun { state: ModuleState::Discovered, library_open: false, started: false }
    }

    /// The action to perform next.
    pub fn next_action(&self) -> (action: HostAction)
        ensures
            action == action_of(*self),
    {
        match self.state {
            ModuleState::Discovered => HostAction::OpenLibrary,
            ModuleState::Loaded => HostAction::CallStartup,
            ModuleState::Started => HostAction::CallShutdown,
            ModuleState::Stopped => HostAction::CloseLibrary,
            ModuleState::Unloaded => HostAction::Finish,
            ModuleState::Failed => {
                if self.library_open {
                    HostAction::CloseLibrary
                } else {
                    HostAction::Finish
                }
            },
        }
    }

    /// Takes note of what came of the last action.
    pub fn advance(&mut self, event: ModuleEvent)
        ensures
            *final(self) == after_event(*old(self), event),
            rank(final(self).state) >= rank(old(self).state),
    {
        let started = self.started;
        let next = match (self.state, event) {
            (ModuleState::Discovered, ModuleEvent::Opened) => ModuleRun {
                state: ModuleState::Loaded,
                library_open: true,
                started,
            },
            (ModuleState::Loaded, ModuleEvent::StartupReturned) => ModuleRun {
                state: ModuleState::Started,
                library_open: true,
                started: true,
            },
            (ModuleState::Started, ModuleEvent::ShutdownReturned) => ModuleRun {
                state: ModuleState::Stopped,
                library_open: true,
                started,
            },
            (ModuleState::Stopped, ModuleEvent::Closed) => ModuleRun {
                state: ModuleState::Unloaded,
                library_open: false,
                started,
            },
            (ModuleState::Unloaded, _) => ModuleRun {
                state: ModuleState::Unloaded,
                library_open: self.library_open,
                started,
            },
            (_, ModuleEvent::Closed) => ModuleRun {
                state: ModuleState::Failed,
                library_open: false,
                started,
            },
            (_, ModuleEvent::CloseFailed) => ModuleRun {
                state: ModuleState::Failed,
                library_open: false,
                started,
            },
            _ => ModuleRun { state: ModuleState::Failed, library_open: self.library_open, started },
        };
        *self = next;
    }
}

/// A module never moves back in its lifecycle: no state is entered twice
/// once it has been left, and no module is loaded again.
pub proof fn lemma_lifecycle_moves_forward(events: Seq<ModuleEvent>, n: int, m: int)
    requires
        0 <= n <= m <= events.len(),
    ensures
        rank(run_after(events.take(n)).state) <= rank(run_after(events.take(m)).state),
        run_after(events.take(n)).state == ModuleState::Failed ==> run_after(
            events.take(m),
        ).state == ModuleState::Failed,
    decreases m - n,
{
    if n < m {
        lemma_lifecycle_moves_forward(events, n, m - 1);
        assert(events.take(m).drop_last() =~= events.take(m - 1));
    }
}

/// The library is held only between opening it and releasing it.
pub proof fn lemma_library_open_in_between(events: Seq<ModuleEvent>)
    ensures
        run_after(events).library_open ==> run_after(events).state != ModuleState::Discovered
            && run_after(events).state != ModuleState::Unloaded,
        !run_after(events).library_open ==> run_after(events).state == ModuleState::Discovered
            || run_after(events).state == ModuleState::Unloaded || run_after(events).state
            == ModuleState::Failed,
    decreases events.len(),
{
    if events.len() > 0 {
        lemma_library_open_in_between(events.drop_last());
    }
}

/// Startup is asked for at most once in a pass: once the host has been asked
/// to call it and has reported back, it is never asked again.
pub proof fn lemma_startup_at_most_once(events: Seq<ModuleEvent>, n: int, m: int)
    requires
        0 <= n < m <= events.len(),
        action_at(events, n) == HostAction::CallStartup,
    ensures
        action_at(events, m) != HostAction::CallStartup,
{
    assert(events.take(n + 1).drop_last() =~= events.take(n));
    lemma_lifecycle_moves_forward(events, n + 1, m);
}

/// Shutdown is asked for at most once in a pass.
pub proof fn lemma_shutdown_at_most_once(events: Seq<ModuleEvent>, n: int, m: int)
    requires
        0 <= n < m <= events.len(),
        action_at(events, n) == HostAction::CallShutdown,
    ensures
        action_at(events, m) != HostAction::CallShutdown,
{
    assert(events.take(n + 1).drop_last() =~= events.take(n));
    lemma_lifecycle_moves_forward(events, n + 1, m);
}

/// Shutdown is asked for only after startup was called and has returned.
pub proof fn lemma_shutdown_only_after_startup(events: Seq<ModuleEvent>, m: int)
    requires
        0 <= m <= events.len(),
        action_at(events, m) == HostAction::CallShutdown,
    ensures
        exists|n: int|
            0 <= n < m && #[trigger] action_at(events, n) == HostAction::CallStartup && events[n]
                == ModuleEvent::StartupReturned,
    decreases m,
{
    let prefix = events.take(m);
    assert(prefix.len() > 0);
    assert(prefix.drop_last() =~= events.take(m - 1));
    let before = run_after(events.take(m - 1));
    if before.state == ModuleState::Loaded {
        assert(action_at(events, m - 1) == HostAction::CallStartup);
        assert(prefix.last() == events[m - 1]);
    } else {
        assert(before.state == ModuleState::Started);
        lemma_shutdown_only_after_startup(events, m - 1);
    }
}

/// The startup of a module has returned just if the module has come as far
/// as `Started` or has failed after it.
pub proof fn lemma_started_means_startup_returned(events: Seq<ModuleEvent>)
    ensures
        run_after(events).state == ModuleState::Started || run_after(events).state
            == ModuleState::Stopped || run_after(events).state == ModuleState::Unloaded
            ==> run_after(events).started,
        run_after(events).state == ModuleState::Discovered || run_after(events).state
            == ModuleState::Loaded ==> !run_after(events).started,
        run_after(events).started ==> exists|n: int|
            0 <= n < events.len() && #[trigger] action_at(events, n) == HostAction::CallStartup
                && events[n] == ModuleEvent::StartupReturned,
    decreases events.len(),
{
    if events.len() > 0 {
        let front = events.drop_last();
        lemma_started_means_startup_returned(front);
        assert(events.take(events.len() - 1) =~= front);
        if run_after(front).started {
            let n = choose|n: int|
                0 <= n < front.len() && #[trigger] action_at(front, n) == HostAction::CallStartup
                    && front[n] == ModuleEvent::StartupReturned;
            assert(front.take(n) =~= events.take(n));
            assert(action_at(events, n) == HostAction::CallStartup);
        } else if run_after(events).started {
            assert(action_at(events, events.len() - 1) == HostAction::CallStartup);
        }
    }
}

/// The number of modules of a pass whose startup has returned.
pub open spec fn started_count(runs: Seq<ModuleRun>) -> nat
    decreases runs.len(),
{
    if runs.len() == 0 {
        0
    } else {
        started_count(runs.drop_last()) + if runs.last().started {
            1nat
        } else {
            0nat
        }
    }
}

/// The number of modules of a pass that were started and have failed since.
pub open spec fn failed_count(runs: Seq<ModuleRun>) -> nat
    decreases runs.len(),
{
    if runs.len() == 0 {
        0
    } else {
        failed_count(runs.drop_last()) + if runs.last().started && runs.last().state
            == ModuleState::Failed {
            1nat
        } else {
            0nat
        }
    }
}

/// Counts the modules of a pass that could not be loaded and started.
pub fn count_not_started(runs: &Vec<ModuleRun>) -> (count: usize)
    ensures
        count == runs@.len() - started_count(runs@),
{
    let mut count: usize = 0;
    let mut i: usize = 0;
    while i < runs.len()
        invariant
            0 <= i <= runs@.len(),
            count == i - started_count(runs@.take(i as int)),
            started_count(runs@.take(i as int)) <= i,
        decreases runs@.len() - i,
    {
        proof {
            assert(runs@.take(i + 1).drop_last() =~= runs@.take(i as int));
        }
        if !runs[i].started {
            count += 1;
        }
        i += 1;
    }
    proof {
        assert(runs@.take(runs@.len() as int) =~= runs@);
    }
    count
}

/// Sums up the unloading of the modules of a pass once it is over: the
/// number of started modules that failed to shut down or to be released,
/// or an error if every started module did.
pub fn summarize_unload(runs: &Vec<ModuleRun>) -> (r: Result<usize, ModuleError>)
    ensures
        match r {
            Ok(failed) => failed == failed_count(runs@) && failed < started_count(runs@),
            Err(e) => {
                &&& failed_count(runs@) == started_count(runs@)
                &&& e is UnloadError
                &&& e.text() == "All modules failed to unload"@
            },
        },
{
    let mut started: usize = 0;
    let mut failed: usize = 0;
    let mut i: usize = 0;
    while i < runs.len()
        invariant
            0 <= i <= runs@.len(),
            started == started_count(runs@.take(i as int)),
            failed == failed_count(runs@.take(i as int)),
            failed <= started <= i,
        decreases runs@.len() - i,
    {
        proof {
            assert(runs@.take(i + 1).drop_last() =~= runs@.take(i as int));
        }
        if runs[i].started {
            started += 1;
            if runs[i].state == ModuleState::Failed {
                failed += 1;
            }
        }
        i += 1;
    }
    proof {
        assert(runs@.take(runs@.len() as int) =~= runs@);
    }
    if failed == started {
        Err(all_modules_failed_to_unload())
    } else {
        Ok(failed)
    }
}

} // verus!
