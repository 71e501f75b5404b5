use purgepack::delta::cli_parse as delta_cli;
use purgepack::delta::{process_data, Transform};
use purgepack::file_facts::{
    find_last_dot, has_container_extension, output_file_name, OutputParent, PathStatus,
};
use purgepack::rle::cli_parse as rle_cli;
use purgepack::rle::cli_parse::Version;

const FILE: PathStatus = PathStatus { exists: true, is_file: true, is_dir: false };
const DIRECTORY: PathStatus = PathStatus { exists: true, is_file: false, is_dir: true };
const NOTHING: PathStatus = PathStatus { exists: false, is_file: false, is_dir: false };

fn parent(status: PathStatus) -> Option<OutputParent> {
    Some(OutputParent { path: "out".to_string(), status })
}

fn delta_args() -> delta_cli::CliArgs {
    delta_cli::CliArgs {
        command: delta_cli::Commands::Transform(delta_cli::CommonArgs {
            input_file: "in.bin".to_string(),
            output_file: "out/data".to_string(),
            stats: true,
        }),
    }
}

fn rle_args() -> rle_cli::CliArgs {
    rle_cli::CliArgs {
        command: rle_cli::Commands::Decompress {
            input_file: "in.ppcb".to_string(),
            output_file: "out/data".to_string(),
        },
        stats: false,
        rle_version: Version::Auto,
    }
}

#[test]
fn delta_arguments_with_usable_paths_are_valid() {
    assert!(delta_args().validate(FILE, parent(DIRECTORY)).is_ok());
    assert!(delta_args().validate(FILE, None).is_ok());
    assert_eq!(delta_args().input_file(), "in.bin");
    assert_eq!(delta_args().output_file(), "out/data");
}

#[test]
fn delta_arguments_name_the_first_problem() {
    match delta_args().validate(NOTHING, parent(NOTHING)) {
        Err(delta_cli::CliError::InputFileNotFound(path)) => assert_eq!(path, "in.bin"),
        other => panic!("{:?}", other),
    }
    match delta_args().validate(DIRECTORY, parent(NOTHING)) {
        Err(delta_cli::CliError::InputNotFile(path)) => assert_eq!(path, "in.bin"),
        other => panic!("{:?}", other),
    }
    match delta_args().validate(FILE, parent(NOTHING)) {
        Err(delta_cli::CliError::OutputParentDirNotFound(path)) => assert_eq!(path, "out"),
        other => panic!("{:?}", other),
    }
    match delta_args().validate(FILE, parent(FILE)) {
        Err(delta_cli::CliError::OutputParentNotDir(path)) => assert_eq!(path, "out"),
        other => panic!("{:?}", other),
    }
}

#[test]
fn delta_parse_hands_on_the_parse_report() {
    match delta_cli::parse_args(Err("unknown command".to_string()), FILE, None) {
        Err(delta_cli::CliError::ClapError(report)) => assert_eq!(report, "unknown command"),
        other => panic!("{:?}", other),
    }
    let parsed = delta_cli::parse_args(Ok(delta_args()), FILE, parent(DIRECTORY)).unwrap();
    assert_eq!(parsed.input_file(), "in.bin");
    assert!(matches!(
        delta_cli::parse_args(Ok(delta_args()), NOTHING, None),
        Err(delta_cli::CliError::InputFileNotFound(_))
    ));
}

#[test]
fn delta_commands_name_their_direction() {
    let common = delta_cli::CommonArgs {
        input_file: "a".to_string(),
        output_file: "b".to_string(),
        stats: false,
    };
    assert_eq!(delta_cli::Commands::Transform(common.clone()).transform(), Transform::Encode);
    assert_eq!(delta_cli::Commands::Inverse(common).transform(), Transform::Decode);
    assert_eq!(
        process_data(&[10, 15], Transform::Encode),
        Ok(vec![0x50, 0x50, 0x43, 0x42, 0x01, 10, 5])
    );
    assert_eq!(
        process_data(&[0x50, 0x50, 0x43, 0x42, 0x01, 10, 5], Transform::Decode),
        Ok(vec![10, 15])
    );
}

#[test]
fn rle_arguments_are_checked_like_delta_arguments() {
    assert!(rle_args().validate(FILE, parent(DIRECTORY)).is_ok());
    assert_eq!(rle_args().input_file(), "in.ppcb");
    assert_eq!(rle_args().output_file(), "out/data");
    match rle_args().validate(NOTHING, None) {
        Err(rle_cli::CliError::InputFileNotFound(path)) => assert_eq!(path, "in.ppcb"),
        other => panic!("{:?}", other),
    }
    match rle_args().validate(DIRECTORY, None) {
        Err(rle_cli::CliError::InputNotFile(path)) => assert_eq!(path, "in.ppcb"),
        other => panic!("{:?}", other),
    }
    match rle_args().validate(FILE, parent(NOTHING)) {
        Err(rle_cli::CliError::OutputParentDirNotFound(path)) => assert_eq!(path, "out"),
        other => panic!("{:?}", other),
    }
    match rle_args().validate(FILE, parent(FILE)) {
        Err(rle_cli::CliError::OutputParentNotDir(path)) => assert_eq!(path, "out"),
        other => panic!("{:?}", other),
    }
    match rle_cli::parse_args(Err("bad version".to_string()), FILE, None) {
        Err(rle_cli::CliError::ClapError(report)) => assert_eq!(report, "bad version"),
        other => panic!("{:?}", other),
    }
    let parsed = rle_cli::parse_args(Ok(rle_args()), FILE, None).unwrap();
    assert_eq!(parsed.rle_version, Version::Auto);
    assert!(!parsed.stats);
}

#[test]
fn container_files_end_in_ppcb() {
    assert!(has_container_extension("archive.ppcb"));
    assert!(has_container_extension("dir.d/ARCHIVE.PPCB"));
    assert!(has_container_extension("a.PpCb"));
    assert!(has_container_extension(".ppcb"));
    assert!(!has_container_extension("archive.ppc"));
    assert!(!has_container_extension("archive.ppcb.txt"));
    assert!(!has_container_extension("ppcb"));
    assert!(!has_container_extension(""));
    assert!(!has_container_extension("archive.purgepack"));
}

#[test]
fn output_names_get_the_extension_if_they_have_none() {
    assert_eq!(output_file_name("data"), "data.ppcb");
    assert_eq!(output_file_name("data.bin"), "data.bin");
    assert_eq!(output_file_name(".hidden"), ".hidden.ppcb");
    assert_eq!(output_file_name("data."), "data.");
    assert_eq!(output_file_name(""), ".ppcb");
    assert_eq!(find_last_dot("a.b.c"), Some(3));
    assert_eq!(find_last_dot(".b"), None);
    assert_eq!(find_last_dot("abc"), None);
}
