use dotrain::cli::{dispatch, Command, Compose, Dotrain, Job, RainconfigInfo, SubCommands};
use std::path::PathBuf;

fn options() -> Compose {
    Compose {
        input: PathBuf::from("src/main.rain"),
        entrypoints: vec!["main".to_string(), "other".to_string()],
        config: Some(PathBuf::from("rainconfig.json")),
        force: None,
        local_data_only: None,
        subcmd: None,
    }
}

#[test]
fn without_subcommand_the_command_line_asks_for_a_composition() {
    assert_eq!(
        dispatch(options()),
        Command::Compose(Job {
            input: PathBuf::from("src/main.rain"),
            config: Some(PathBuf::from("rainconfig.json")),
            entrypoints: vec!["main".to_string(), "other".to_string()],
            force: false,
            local_data_only: false,
        })
    );
}

#[test]
fn flags_are_off_unless_given_as_true() {
    for (given, expected) in [(None, false), (Some(false), false), (Some(true), true)] {
        let mut cli = options();
        cli.force = given;
        match dispatch(cli) {
            Command::Compose(job) => {
                assert_eq!(job.force, expected);
                assert!(!job.local_data_only);
            }
            other => panic!("expected a composition, got {:?}", other),
        }
        let mut cli = options();
        cli.local_data_only = given;
        match dispatch(cli) {
            Command::Compose(job) => {
                assert_eq!(job.local_data_only, expected);
                assert!(!job.force);
            }
            other => panic!("expected a composition, got {:?}", other),
        }
    }
}

#[test]
fn no_configuration_path_stays_none() {
    let mut cli = options();
    cli.config = None;
    cli.entrypoints = vec![];
    match dispatch(cli) {
        Command::Compose(job) => {
            assert_eq!(job.config, None);
            assert!(job.entrypoints.is_empty());
        }
        other => panic!("expected a composition, got {:?}", other),
    }
}

#[test]
fn a_subcommand_wins_over_the_composition() {
    for topic in [
        RainconfigInfo::Info,
        RainconfigInfo::PrintAll,
        RainconfigInfo::Include,
        RainconfigInfo::Subgraphs,
    ] {
        let mut cli = options();
        cli.force = Some(true);
        cli.subcmd = Some(SubCommands::RainconfigInfo(topic));
        assert_eq!(dispatch(cli), Command::Describe(topic));
    }
}

#[test]
fn the_top_level_command_holds_the_options() {
    let Dotrain::Compose(inner) = Dotrain::Compose(options());
    assert_eq!(inner, options());
}
