//! What the host does for a routed command line, step by step.

use crate::host::arguments::{
    group_entries, group_list, groups_of_list, optional_words, words, Group, RoutedArguments,
};
use vstd::prelude::*;
use vstd::string::StringExecFns;

verus! {

/// One step of the host.
#[derive(Debug, PartialEq, Eq)]
pub enum Invocation {
    /// Invoke the ping callback of the core.
    PingCore,
    /// Load every module of the directory, start each with these words,
    /// then shut all of them down and unload them.
    AllModules { arguments: Vec<String> },
    /// Load the named module, start it with these words, shut it down and
    /// unload it.
    Module { name: String, arguments: Vec<String> },
}

/// The content of a step.
pub enum Step {
    /// Invoke the ping callback of the core.
    PingCore,
    /// Run every module of the directory with these words.
    AllModules { arguments: Seq<Seq<char>> },
    /// Run the named module with these words.
    Module { name: Seq<char>, arguments: Seq<Seq<char>> },
}

impl Invocation {
    /// The content of the step.
    pub open spec fn view(self) -> Step {
        match self {
            Invocation::PingCore => Step::PingCore,
            Invocation::AllModules { arguments } => Step::AllModules {
                arguments: words(arguments@),
            },
            Invocation::Module { name, arguments } => Step::Module {
                name: name@,
                arguments: words(arguments@),
            },
        }
    }
}

/// The content of a list of steps.
pub open spec fn steps(list: Seq<Invocation>) -> Seq<Step> {
    Seq::new(list.len(), |i: int| list[i].view())
}

/// Whether `ping` is among the words.
pub open spec fn mentions_ping(arguments: Seq<Seq<char>>) -> bool {
    exists|i: int| 0 <= i < arguments.len() && #[trigger] arguments[i] == "ping"@
}

/// The steps for the global words: the words, behind the program name, go to
/// every module; the core is pinged first if `ping` is among them.
pub open spec fn global_steps(program: Seq<char>, global: Option<Seq<Seq<char>>>) -> Seq<Step> {
    match global {
        None => Seq::empty(),
        Some(global) => {
            let arguments = seq![program] + global;
            if mentions_ping(arguments) {
                seq![Step::PingCore, Step::AllModules { arguments }]
            } else {
                seq![Step::AllModules { arguments }]
            }
        },
    }
}

/// The steps for one module group: the group `core` is the host's own and
/// pings the core if `ping` is among its words; any other group runs the
/// module of that name with the words behind the program name.
pub open spec fn group_steps(program: Seq<char>, group: Group) -> Seq<Step> {
    let arguments = seq![program] + group.1;
    if group.0 == "core"@ {
        if mentions_ping(arguments) {
            seq![Step::PingCore]
        } else {
            Seq::empty()
        }
    } else {
        seq![Step::Module { name: group.0, arguments }]
    }
}

/// The steps for the module groups, in their order.
pub open spec fn groups_steps(program: Seq<char>, groups: Seq<Group>) -> Seq<Step>
    decreases groups.len(),
{
    if groups.len() == 0 {
        Seq::empty()
    } else {
        groups_steps(program, groups.drop_last()) + group_steps(program, groups.last())
    }
}

/// Whether `ping` is among the words.
fn contains_ping(arguments: &Vec<String>) -> (found: bool)
    ensures
        found == mentions_ping(words(arguments@)),
{
    let ping = String::from_str("ping");
    let mut i: usize = 0;
    while i < arguments.len()
        invariant
            0 <= i <= arguments@.len(),
            ping@ == "ping"@,
            forall|j: int| 0 <= j < i ==> #[trigger] words(arguments@)[j] != "ping"@,
        decreases arguments@.len() - i,
    {
        if arguments[i] == ping {
            assert(words(arguments@)[i as int] == "ping"@);
            return true;
        }
        i += 1;
    }
    false
}

/// The words of a call: the program name, then `rest`.
fn with_program(program: &String, rest: &Vec<String>) -> (arguments: Vec<String>)
    ensures
        words(arguments@) == seq![program@] + words(rest@),
{
    let mut arguments: Vec<String> = Vec::new();
    arguments.push(program.clone());
    let mut i: usize = 0;
    while i < rest.len()
        invariant
            0 <= i <= rest@.len(),
            arguments@.len() == i + 1,
            arguments@[0]@ == program@,
            forall|k: int| 1 <= k <= i ==> (#[trigger] arguments@[k])@ == rest@[k - 1]@,
        decreases rest@.len() - i,
    {
        arguments.push(rest[i].clone());
        i += 1;
    }
    proof {
        assert(words(arguments@) =~= seq![program@] + words(rest@));
    }
    arguments
}

/// Lays out the steps of the host for a routed command line: first those for
/// the global words, then those for each module group in order.
pub fn plan_invocations(program: &String, routed: RoutedArguments) -> (plan: Vec<Invocation>)
    ensures
        steps(plan@) == global_steps(
            program@,
            optional_words(routed.global_args),
        ) + groups_steps(program@, group_entries(routed.separated_args)),
{
    let mut plan: Vec<Invocation> = Vec::new();
    let RoutedArguments { global_args, separated_args } = routed;
    match global_args {
        Some(global) => {
            let arguments = with_program(program, &global);
            if contains_ping(&arguments) {
                plan.push(Invocation::PingCore);
            }
            plan.push(Invocation::AllModules { arguments });
        },
        None => {},
    }
    let ghost head = steps(plan@);
    assert(head =~= global_steps(
        program@,
        optional_words(routed.global_args),
    ));
    let groups = group_list(separated_args);
    let ghost all = group_entries(separated_args);
    let core = String::from_str("core");
    let mut i: usize = 0;
    while i < groups.len()
        invariant
            0 <= i <= groups@.len(),
            core@ == "core"@,
            all == groups_of_list(groups@),
            steps(plan@) == head + groups_steps(program@, all.take(i as int)),
        decreases groups@.len() - i,
    {
        proof {
            assert(all.take(i + 1).drop_last() =~= all.take(i as int));
            assert(all.take(i + 1).last() == (groups@[i as int].0@, words(groups@[i as int].1@)));
        }
        let ghost before = steps(plan@);
        let arguments = with_program(program, &groups[i].1);
        if groups[i].0 == core {
            if contains_ping(&arguments) {
                plan.push(Invocation::PingCore);
                assert(steps(plan@) =~= before + seq![Step::PingCore]);
            }
        } else {
            plan.push(Invocation::Module { name: groups[i].0.clone(), arguments });
            assert(steps(plan@) =~= before + seq![
                Step::Module {
                    name: groups@[i as int].0@,
                    arguments: seq![program@] + words(groups@[i as int].1@),
                },
            ]);
        }
        i += 1;
    }
    proof {
        assert(all.take(groups@.len() as int) =~= all);
    }
    plan
}

} // verus!
