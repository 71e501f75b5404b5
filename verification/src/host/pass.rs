//! A pass of the host over several modules: every module is loaded and
//! started before any is shut down, and every module is shut down before
//! any is released.

use crate::host::lifecycle::{action_of, HostAction, ModuleRun};
use vstd::prelude::*;

verus! {

/// How soon an action is due in a pass: loading and starting come first,
/// then shutting down, then releasing.
pub open spec fn turn(action: HostAction) -> nat {
    match action {
        HostAction::OpenLibrary => 0,
        HostAction::CallStartup => 0,
        HostAction::CallShutdown => 1,
        HostAction::CloseLibrary => 2,
        HostAction::Finish => 3,
    }
}

/// Whether the module at position `i` is the one to act on next: its action
/// is due no later than that of any other module, and sooner than that of
/// the modules before it.
pub open spec fn is_next(runs: Seq<ModuleRun>, i: int) -> bool {
    &&& 0 <= i < runs.len()
    &&& action_of(runs[i]) != HostAction::Finish
    &&& forall|j: int|
        0 <= j < runs.len() ==> turn(action_of(runs[i])) <= turn(action_of(#[trigger] runs[j]))
            && (j < i ==> turn(action_of(runs[i])) < turn(action_of(runs[j])))
}

/// The turn of an action.
fn turn_of(action: HostAction) -> (t: u8)
    ensures
        t == turn(action),
{
    match action {
        HostAction::OpenLibrary => 0,
        HostAction::CallStartup => 0,
        HostAction::CallShutdown => 1,
        HostAction::CloseLibrary => 2,
        HostAction::Finish => 3,
    }
}

/// Picks the module to act on next, and the action: the first of the
/// modules whose action is due soonest. Nothing is left to do once every
/// module has finished.
pub fn next_step(runs: &Vec<ModuleRun>) -> (step: Option<(usize, HostAction)>)
    ensures
        match step {
            Some((i, action)) => is_next(runs@, i as int) && action == action_of(runs@[i as int]),
            None => forall|j: int|
                0 <= j < runs@.len() ==> action_of(#[trigger] runs@[j]) == HostAction::Finish,
        },
{
    let mut best: Option<(usize, HostAction)> = None;
    let mut best_turn: u8 = 3;
    let mut j: usize = 0;
    while j < runs.len()
        invariant
            0 <= j <= runs@.len(),
            match best {
                Some((i, action)) => {
                    &&& i < j
                    &&& action == action_of(runs@[i as int])
                    &&& best_turn == turn(action)
                    &&& best_turn < 3
                    &&& forall|k: int|
                        0 <= k < j ==> best_turn <= turn(action_of(#[trigger] runs@[k])) && (k < i
                            ==> best_turn < turn(action_of(runs@[k])))
                },
                None => best_turn == 3 && forall|k: int|
                    0 <= k < j ==> action_of(#[trigger] runs@[k]) == HostAction::Finish,
            },
        decreases runs@.len() - j,
    {
        let action = runs[j].next_action();
        let t = turn_of(action);
        if t < best_turn {
            best = Some((j, action));
            best_turn = t;
        }
        j += 1;
    }
    best
}

} // verus!
