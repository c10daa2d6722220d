use db6::cli::{Cli, CliCommand};
use db6::db::DB;
use db6::errors::CliError;
use db6::types::{IdCounter, ID};

fn args(list: &[&str]) -> Vec<String> {
    list.iter().map(|s| s.to_string()).collect()
}

#[test]
fn no_arguments_means_help() {
    let (root, port, cmd) = Cli::parse_args(&args(&["db6"])).unwrap();
    assert!(root.is_none());
    assert!(port.is_none());
    assert!(matches!(cmd, CliCommand::Help));
}

#[test]
fn run_with_root_and_port() {
    let (root, port, cmd) =
        Cli::parse_args(&args(&["db6", "run", "--root", "/tmp/dbs", "--port", "7000"])).unwrap();
    assert_eq!(root.as_deref(), Some("/tmp/dbs"));
    assert_eq!(port, Some(7000));
    assert!(matches!(cmd, CliCommand::Run));
}

#[test]
fn equals_forms_are_accepted() {
    let (root, port, _) =
        Cli::parse_args(&args(&["db6", "run", "--root=/r", "--port=81"])).unwrap();
    assert_eq!(root.as_deref(), Some("/r"));
    assert_eq!(port, Some(81));
}

#[test]
fn new_takes_a_name_and_password() {
    let (_, _, cmd) =
        Cli::parse_args(&args(&["db6", "new", "mydb", "--password", "SECRET-REDACTED"])).unwrap();
    match cmd {
        CliCommand::New(name, password, insecure) => {
            assert_eq!(name, "mydb");
            assert_eq!(password.as_deref(), Some("SECRET-REDACTED"));
            assert!(!insecure);
        },
        _ => panic!("expected the new command"),
    }
}

#[test]
fn new_without_name_rejected() {
    assert!(matches!(
        Cli::parse_args(&args(&["db6", "new"])),
        Err(CliError::MissingDatabaseName)
    ));
}

#[test]
fn bad_database_name_rejected() {
    assert!(matches!(
        Cli::parse_args(&args(&["db6", "new", "my db"])),
        Err(CliError::InvalidDatabaseName)
    ));
}

#[test]
fn unknown_command_rejected() {
    assert!(matches!(
        Cli::parse_args(&args(&["db6", "start"])),
        Err(CliError::UnknownCommand)
    ));
}

#[test]
fn invalid_port_rejected() {
    assert!(matches!(
        Cli::parse_args(&args(&["db6", "run", "--port", "65536"])),
        Err(CliError::InvalidPort)
    ));
    assert!(matches!(
        Cli::parse_args(&args(&["db6", "run", "--port", "80a"])),
        Err(CliError::InvalidPort)
    ));
    assert!(matches!(
        Cli::parse_args(&args(&["db6", "run", "--port="])),
        Err(CliError::InvalidPort)
    ));
}

#[test]
fn dangling_switches_rejected() {
    assert!(matches!(
        Cli::parse_args(&args(&["db6", "run", "--root"])),
        Err(CliError::MissingRootValue)
    ));
    assert!(matches!(
        Cli::parse_args(&args(&["db6", "run", "--port"])),
        Err(CliError::MissingPortValue)
    ));
    assert!(matches!(
        Cli::parse_args(&args(&["db6", "new", "d", "--password"])),
        Err(CliError::MissingPasswordValue)
    ));
}

#[test]
fn password_and_insecure_conflict() {
    assert!(matches!(
        Cli::parse_args(&args(&["db6", "new", "d", "--password", "p", "--insecure"])),
        Err(CliError::ConflictingPasswordConfig)
    ));
    assert!(matches!(
        Cli::parse_args(&args(&["db6", "new", "d", "--insecure", "--password", "p"])),
        Err(CliError::ConflictingPasswordConfig)
    ));
}

#[test]
fn password_only_on_new() {
    assert!(matches!(
        Cli::parse_args(&args(&["db6", "run", "--password", "p"])),
        Err(CliError::PasswordOutsideNew)
    ));
    assert!(matches!(
        Cli::parse_args(&args(&["db6", "run", "--insecure"])),
        Err(CliError::InsecureOutsideNew)
    ));
}

#[test]
fn unknown_arguments_are_ignored() {
    let (_, _, cmd) = Cli::parse_args(&args(&["db6", "run", "whatever"])).unwrap();
    assert!(matches!(cmd, CliCommand::Run));
}

#[test]
fn assemble_applies_defaults() {
    let c = Cli::assemble(None, None, CliCommand::Help, Some("/home/u/.db6".to_string())).unwrap();
    assert_eq!(c.root, "/home/u/.db6");
    assert_eq!(c.port, 6100);
    let c2 = Cli::assemble(
        Some("/r".to_string()),
        Some(1234),
        CliCommand::Run,
        None,
    )
    .unwrap();
    assert_eq!(c2.root, "/r");
    assert_eq!(c2.port, 1234);
    assert!(matches!(
        Cli::assemble(None, None, CliCommand::Help, None),
        Err(CliError::NoHomeDirectory)
    ));
}

#[test]
fn ids_count_up_and_compare() {
    let mut counter = IdCounter::new();
    let a = ID::new(&mut counter);
    let b = ID::new(&mut counter);
    let c = ID::new(&mut counter);
    assert!(a != b);
    assert!(b != c);
    assert_eq!(a.to_text(), "1");
    assert_eq!(b.to_text(), "2");
    assert_eq!(c.to_text(), "3");
}

#[test]
fn id_counter_chains_on_overflow() {
    let mut counter = IdCounter { digits: vec![u64::MAX] };
    let a = ID::new(&mut counter);
    assert_eq!(a.to_text(), format!("{}-0", u64::MAX));
    let b = ID::new(&mut counter);
    assert_eq!(b.to_text(), format!("{}-1", u64::MAX));
    assert!(a != b);
}

#[test]
fn db_keeps_its_path() {
    let db = DB::from_path("/data/dbs/one".to_string());
    assert_eq!(db.path().as_str(), "/data/dbs/one");
}
