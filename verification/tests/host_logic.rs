use purgepack::host::arguments::route_arguments;
use purgepack::host::discovery::{
    discover_modules, find_module, module_identifier, DirectoryEntry, Platform,
};
use purgepack::host::error::{module_folder_created, ModuleError};
use purgepack::host::lifecycle::{
    count_not_started, summarize_unload, HostAction, ModuleEvent, ModuleRun, ModuleState,
};
use purgepack::host::pass::next_step;
use purgepack::host::plan::{plan_invocations, Invocation};

fn words(list: &[&str]) -> Vec<String> {
    list.iter().map(|word| word.to_string()).collect()
}

fn file(name: &str) -> DirectoryEntry {
    DirectoryEntry { file_name: name.to_string(), is_file: true }
}

#[test]
fn arguments_split_into_global_and_module_groups() {
    let routed = route_arguments(&words(&["x", "y", "+delta", "t", "in", "out", "+core", "ping"]));
    assert_eq!(routed.global_args, Some(words(&["x", "y"])));
    let groups: Vec<(String, Vec<String>)> = routed.separated_args.into_iter().collect();
    assert_eq!(
        groups,
        vec![
            ("delta".to_string(), words(&["t", "in", "out"])),
            ("core".to_string(), words(&["ping"])),
        ]
    );
}

#[test]
fn arguments_without_global_words() {
    let routed = route_arguments(&words(&["+rls", "c", "a", "b"]));
    assert_eq!(routed.global_args, None);
    assert_eq!(routed.separated_args.len(), 1);
    assert_eq!(routed.separated_args["rls"], words(&["c", "a", "b"]));
    let routed = route_arguments(&words(&[]));
    assert_eq!(routed.global_args, None);
    assert!(routed.separated_args.is_empty());
}

#[test]
fn a_group_that_is_named_again_starts_anew_in_its_place() {
    let routed = route_arguments(&words(&["+a", "x", "+b", "y", "+a", "z", "w", "+c"]));
    let groups: Vec<(String, Vec<String>)> = routed.separated_args.into_iter().collect();
    assert_eq!(
        groups,
        vec![
            ("a".to_string(), words(&["z", "w"])),
            ("b".to_string(), words(&["y"])),
            ("c".to_string(), words(&[])),
        ]
    );
}

#[test]
fn a_plus_inside_a_word_opens_no_group() {
    let routed = route_arguments(&words(&["a+b", "+m", "c+d"]));
    assert_eq!(routed.global_args, Some(words(&["a+b"])));
    assert_eq!(routed.separated_args["m"], words(&["c+d"]));
}

#[test]
fn plan_runs_global_words_first_then_each_group() {
    let program = "host".to_string();
    let routed = route_arguments(&words(&["go", "+core", "ping", "+delta", "t", "+core"]));
    let plan = plan_invocations(&program, routed);
    assert_eq!(
        plan,
        vec![
            Invocation::AllModules { arguments: words(&["host", "go"]) },
            Invocation::Module { name: "delta".to_string(), arguments: words(&["host", "t"]) },
        ]
    );
    let routed = route_arguments(&words(&["ping", "+core", "ping", "+x"]));
    let plan = plan_invocations(&program, routed);
    assert_eq!(
        plan,
        vec![
            Invocation::PingCore,
            Invocation::AllModules { arguments: words(&["host", "ping"]) },
            Invocation::PingCore,
            Invocation::Module { name: "x".to_string(), arguments: words(&["host"]) },
        ]
    );
    assert_eq!(plan_invocations(&program, route_arguments(&words(&[]))), vec![]);
}

#[test]
fn modules_are_named_by_their_files() {
    assert_eq!(module_identifier(&file("libdelta.so"), Platform::Linux), Some("delta".to_string()));
    assert_eq!(module_identifier(&file("libdelta.SO"), Platform::Linux), Some("delta".to_string()));
    assert_eq!(module_identifier(&file("lib.a.b.so"), Platform::Linux), Some(".a.b".to_string()));
    assert_eq!(module_identifier(&file("delta.so"), Platform::Linux), None);
    assert_eq!(module_identifier(&file("libdelta.dll"), Platform::Linux), None);
    assert_eq!(module_identifier(&file("libdelta"), Platform::Linux), None);
    assert_eq!(module_identifier(&file(".so"), Platform::Linux), None);
    assert_eq!(module_identifier(&file("libx.so.1"), Platform::Linux), None);
    assert_eq!(module_identifier(&file("delta.dll"), Platform::Windows), Some("delta".to_string()));
    assert_eq!(module_identifier(&file("Delta.DlL"), Platform::Windows), Some("Delta".to_string()));
    assert_eq!(module_identifier(&file("delta.so"), Platform::Windows), None);
    let directory = DirectoryEntry { file_name: "libdelta.so".to_string(), is_file: false };
    assert_eq!(module_identifier(&directory, Platform::Linux), None);
}

#[test]
fn modules_are_found_in_listing_order() {
    let entries = vec![
        file("readme.txt"),
        file("librls.so"),
        DirectoryEntry { file_name: "libdir.so".to_string(), is_file: false },
        file("libdelta.so"),
        file("librls.SO"),
    ];
    assert_eq!(discover_modules(&entries, Platform::Linux), Ok(vec![1, 3, 4]));
    assert_eq!(find_module(&entries, &"rls".to_string(), Platform::Linux), Ok(1));
    assert_eq!(find_module(&entries, &"delta".to_string(), Platform::Linux), Ok(3));
    assert_eq!(
        find_module(&entries, &"huffman".to_string(), Platform::Linux),
        Err(ModuleError::LoadError("Module huffman not found!".to_string()))
    );
    assert_eq!(
        discover_modules(&entries, Platform::Windows),
        Err(ModuleError::LoadError("Found no modules!".to_string()))
    );
}

#[test]
fn missing_module_folder_is_a_load_error() {
    assert_eq!(
        module_folder_created(),
        ModuleError::LoadError("module folder was missing and has been created".to_string())
    );
    assert_eq!(
        module_folder_created().message(),
        "module folder was missing and has been created"
    );
}

fn run(events: &[ModuleEvent]) -> (Vec<HostAction>, ModuleRun) {
    let mut run = ModuleRun::new();
    let mut actions = vec![run.next_action()];
    for event in events {
        run.advance(*event);
        actions.push(run.next_action());
    }
    (actions, run)
}

#[test]
fn lifecycle_of_a_module_that_works() {
    let (actions, end) = run(&[
        ModuleEvent::Opened,
        ModuleEvent::StartupReturned,
        ModuleEvent::ShutdownReturned,
        ModuleEvent::Closed,
    ]);
    assert_eq!(
        actions,
        vec![
            HostAction::OpenLibrary,
            HostAction::CallStartup,
            HostAction::CallShutdown,
            HostAction::CloseLibrary,
            HostAction::Finish,
        ]
    );
    assert_eq!(
        end,
        ModuleRun { state: ModuleState::Unloaded, library_open: false, started: true }
    );
}

#[test]
fn lifecycle_releases_the_library_after_a_failure() {
    let (actions, end) = run(&NO_STARTUP);
    assert_eq!(
        actions,
        vec![
            HostAction::OpenLibrary,
            HostAction::CallStartup,
            HostAction::CloseLibrary,
            HostAction::Finish,
        ]
    );
    assert_eq!(end.state, ModuleState::Failed);
    let (actions, end) = run(&[ModuleEvent::OpenFailed]);
    assert_eq!(actions, vec![HostAction::OpenLibrary, HostAction::Finish]);
    assert_eq!(
        end,
        ModuleRun { state: ModuleState::Failed, library_open: false, started: false }
    );
    let (actions, _) = run(&[
        ModuleEvent::Opened,
        ModuleEvent::StartupReturned,
        ModuleEvent::ShutdownMissing,
        ModuleEvent::CloseFailed,
        ModuleEvent::Opened,
    ]);
    assert_eq!(
        actions,
        vec![
            HostAction::OpenLibrary,
            HostAction::CallStartup,
            HostAction::CallShutdown,
            HostAction::CloseLibrary,
            HostAction::Finish,
            HostAction::Finish,
        ]
    );
}

const WORKS: [ModuleEvent; 4] = [
    ModuleEvent::Opened,
    ModuleEvent::StartupReturned,
    ModuleEvent::ShutdownReturned,
    ModuleEvent::Closed,
];
const NO_SHUTDOWN: [ModuleEvent; 4] = [
    ModuleEvent::Opened,
    ModuleEvent::StartupReturned,
    ModuleEvent::ShutdownMissing,
    ModuleEvent::Closed,
];
const NO_STARTUP: [ModuleEvent; 3] =
    [ModuleEvent::Opened, ModuleEvent::StartupMissing, ModuleEvent::Closed];

#[test]
fn unloading_fails_only_if_every_started_module_failed() {
    let works = run(&WORKS).1;
    let no_shutdown = run(&NO_SHUTDOWN).1;
    let no_startup = run(&NO_STARTUP).1;
    let not_found = run(&[ModuleEvent::OpenFailed]).1;
    assert_eq!(summarize_unload(&vec![works, no_shutdown, works, no_startup]), Ok(1));
    assert_eq!(summarize_unload(&vec![works]), Ok(0));
    assert_eq!(count_not_started(&vec![works, no_shutdown, not_found, no_startup]), 2);
    assert_eq!(count_not_started(&vec![]), 0);
    let err = Err(ModuleError::UnloadError("All modules failed to unload".to_string()));
    assert_eq!(summarize_unload(&vec![no_shutdown, no_shutdown, no_startup]), err);
    assert_eq!(summarize_unload(&vec![no_startup, not_found]), err);
    assert_eq!(summarize_unload(&vec![]), err);
}

#[test]
fn a_pass_starts_all_modules_before_it_shuts_any_down() {
    let answers = [&WORKS[..], &NO_STARTUP[..], &NO_SHUTDOWN[..]];
    let mut runs = vec![ModuleRun::new(); 3];
    let mut given = [0usize; 3];
    let mut steps = Vec::new();
    while let Some((position, action)) = next_step(&runs) {
        assert_eq!(action, runs[position].next_action());
        steps.push((position, action));
        runs[position].advance(answers[position][given[position]]);
        given[position] += 1;
    }
    assert_eq!(
        steps,
        vec![
            (0, HostAction::OpenLibrary),
            (0, HostAction::CallStartup),
            (1, HostAction::OpenLibrary),
            (1, HostAction::CallStartup),
            (2, HostAction::OpenLibrary),
            (2, HostAction::CallStartup),
            (0, HostAction::CallShutdown),
            (2, HostAction::CallShutdown),
            (0, HostAction::CloseLibrary),
            (1, HostAction::CloseLibrary),
            (2, HostAction::CloseLibrary),
        ]
    );
    assert_eq!(next_step(&runs), None);
    assert_eq!(next_step(&vec![]), None);
    assert_eq!(count_not_started(&runs), 1);
    assert_eq!(summarize_unload(&runs), Ok(1));
}
