use dotrain::config::{ConfigDocument, DeclaredInclude, RainConfig, SubgraphEntry};
use dotrain::document::ParseError;
use dotrain::entrypoint::EntrypointError;
use dotrain::pipeline::{compose_target, ComposeTarget, Error, Outcome, Output};
use dotrain::resolver::{Request, ResolveError, Response, Target};
use std::path::PathBuf;

const SOURCE: &str = "---\nuses: 0xabc\n---\n_ _: get(@0xabc);";

fn target(config: Option<RainConfig>, force: bool, local_data_only: bool) -> ComposeTarget {
    ComposeTarget {
        input: PathBuf::from("example.rain"),
        entrypoints: vec![],
        force,
        local_data_only,
        config,
    }
}

fn with_local_file(force: bool) -> RainConfig {
    let document = ConfigDocument::Declared {
        includes: vec![DeclaredInclude {
            id: "0xabc".to_string(),
            path: "local.meta".to_string(),
            reachable: true,
        }],
        subgraphs: vec![],
    };
    RainConfig::load(document, force).unwrap()
}

fn with_subgraphs() -> RainConfig {
    let document = ConfigDocument::Declared {
        includes: vec![DeclaredInclude {
            id: "0xabc".to_string(),
            path: "local.meta".to_string(),
            reachable: true,
        }],
        subgraphs: vec!["https://one".to_string(), "https://two".to_string()],
    };
    RainConfig::load(document, false).unwrap()
}

/// Runs a composition to its end, answering every request from `sources`.
fn run(
    target: &ComposeTarget,
    source: &str,
    sources: &[(Target, &str, Option<&str>)],
) -> (Result<Output, Error>, Vec<Request>) {
    let mut responses: Vec<Response> = Vec::new();
    let mut asked: Vec<Request> = Vec::new();
    loop {
        match compose_target(target, source, &responses) {
            Err(error) => return (Err(error), asked),
            Ok(Outcome::Composed(output)) => return (Ok(output), asked),
            Ok(Outcome::Fetch(request)) => {
                assert!(!asked.contains(&request), "asked twice: {:?}", request);
                let payload = sources
                    .iter()
                    .find(|(target, id, _)| *target == request.target && *id == request.id)
                    .and_then(|(_, _, payload)| payload.map(|p| p.to_string()));
                asked.push(Request { id: request.id.clone(), target: copy(&request.target) });
                responses.push(Response { request, payload });
            }
        }
    }
}

fn copy(target: &Target) -> Target {
    match target {
        Target::Local(path) => Target::Local(path.clone()),
        Target::Subgraph(url) => Target::Subgraph(url.clone()),
    }
}

#[test]
fn a_local_dependency_is_substituted_without_warning() {
    let target = target(Some(with_local_file(false)), false, false);
    let first = compose_target(&target, SOURCE, &vec![]);
    assert_eq!(
        first,
        Ok(Outcome::Fetch(Request {
            id: "0xabc".to_string(),
            target: Target::Local("local.meta".to_string()),
        }))
    );
    let responses = vec![Response {
        request: Request {
            id: "0xabc".to_string(),
            target: Target::Local("local.meta".to_string()),
        },
        payload: Some("add(1 2)".to_string()),
    }];
    assert_eq!(
        compose_target(&target, SOURCE, &responses),
        Ok(Outcome::Composed(Output {
            rainlang: "_ _: get(add(1 2));".to_string(),
            warnings: vec![],
        }))
    );
}

#[test]
fn without_configuration_the_dependency_is_unresolved() {
    for config in [None, Some(RainConfig::empty())] {
        let target = target(config, false, false);
        assert_eq!(
            compose_target(&target, SOURCE, &vec![]),
            Err(Error::Resolve(ResolveError::Unresolved("0xabc".to_string())))
        );
    }
}

#[test]
fn with_force_the_dependency_is_marked_and_warned_of_once() {
    for config in [None, Some(RainConfig::empty())] {
        let target = target(config, true, false);
        assert_eq!(
            compose_target(&target, SOURCE, &vec![]),
            Ok(Outcome::Composed(Output {
                rainlang: "_ _: get(<unresolved:0xabc>);".to_string(),
                warnings: vec!["0xabc".to_string()],
            }))
        );
    }
}

#[test]
fn a_requested_entrypoint_that_is_no_block_is_not_found() {
    let mut target = target(Some(with_local_file(false)), false, false);
    target.entrypoints = vec!["missing".to_string()];
    assert_eq!(
        compose_target(&target, SOURCE, &vec![]),
        Err(Error::Entrypoint(EntrypointError::NotFound("missing".to_string())))
    );
    target.force = true;
    assert_eq!(
        compose_target(&target, SOURCE, &vec![]),
        Err(Error::Entrypoint(EntrypointError::NotFound("missing".to_string())))
    );
}

#[test]
fn a_malformed_source_fails_before_anything_is_asked() {
    let target = target(Some(with_local_file(false)), true, false);
    assert_eq!(
        compose_target(&target, "---\nuses: 0xabc\n", &vec![]),
        Err(Error::Parse(ParseError::MalformedFrontmatter))
    );
}

#[test]
fn the_run_asks_sources_in_priority_order_and_stops_at_the_first_hit() {
    let target = target(Some(with_subgraphs()), false, false);
    let sources = [
        (Target::Local("local.meta".to_string()), "0xabc", None),
        (Target::Subgraph("https://one".to_string()), "0xabc", Some("ONE")),
        (Target::Subgraph("https://two".to_string()), "0xabc", Some("TWO")),
    ];
    let (result, asked) = run(&target, SOURCE, &sources);
    assert_eq!(
        result,
        Ok(Output { rainlang: "_ _: get(ONE);".to_string(), warnings: vec![] })
    );
    assert_eq!(
        asked,
        vec![
            Request { id: "0xabc".to_string(), target: Target::Local("local.meta".to_string()) },
            Request {
                id: "0xabc".to_string(),
                target: Target::Subgraph("https://one".to_string())
            },
        ]
    );
}

#[test]
fn local_data_only_does_not_ask_the_subgraphs() {
    let sources = [
        (Target::Local("local.meta".to_string()), "0xabc", None),
        (Target::Subgraph("https://one".to_string()), "0xabc", Some("ONE")),
    ];
    let strict = target(Some(with_subgraphs()), false, true);
    let (result, asked) = run(&strict, SOURCE, &sources);
    assert_eq!(result, Err(Error::Resolve(ResolveError::Unresolved("0xabc".to_string()))));
    assert_eq!(asked.len(), 1);
    let forced = target(Some(with_subgraphs()), true, true);
    let (result, asked) = run(&forced, SOURCE, &sources);
    assert_eq!(
        result,
        Ok(Output {
            rainlang: "_ _: get(<unresolved:0xabc>);".to_string(),
            warnings: vec!["0xabc".to_string()],
        })
    );
    assert_eq!(asked.len(), 1);
}

#[test]
fn an_unreferenced_unresolved_dependency_is_still_warned_of() {
    let source = "---\nuses: 0xabc\nuses: 0xdef\n---\n```main\n@0xabc @0xabc\n```";
    let target = target(None, true, false);
    let (result, asked) = run(&target, source, &[]);
    assert_eq!(
        result,
        Ok(Output {
            rainlang: "<unresolved:0xabc> <unresolved:0xabc>".to_string(),
            warnings: vec!["0xabc".to_string(), "0xdef".to_string()],
        })
    );
    assert!(asked.is_empty());
}

#[test]
fn a_finished_resolution_never_misses_a_reference_without_force() {
    let source = "---\nuses: a\nuses: b\n---\n@a @b @c";
    let config = RainConfig::new(
        vec![],
        vec![SubgraphEntry { url: "https://one".to_string(), skip: false }],
    )
    .unwrap();
    let target = target(Some(config), false, false);
    let sources = [
        (Target::Subgraph("https://one".to_string()), "a", Some("A")),
        (Target::Subgraph("https://one".to_string()), "b", Some("B")),
    ];
    let (result, asked) = run(&target, source, &sources);
    assert_eq!(result, Ok(Output { rainlang: "A B @c".to_string(), warnings: vec![] }));
    assert_eq!(asked.len(), 2);
}

#[test]
fn a_skipped_file_is_not_read_in_force_mode() {
    let document = ConfigDocument::Declared {
        includes: vec![DeclaredInclude {
            id: "0xabc".to_string(),
            path: "gone.meta".to_string(),
            reachable: false,
        }],
        subgraphs: vec!["https://one".to_string()],
    };
    let config = RainConfig::load(document, true).unwrap();
    let target = target(Some(config), true, false);
    let sources = [(Target::Subgraph("https://one".to_string()), "0xabc", Some("ONE"))];
    let (result, asked) = run(&target, SOURCE, &sources);
    assert_eq!(result, Ok(Output { rainlang: "_ _: get(ONE);".to_string(), warnings: vec![] }));
    assert_eq!(
        asked,
        vec![Request {
            id: "0xabc".to_string(),
            target: Target::Subgraph("https://one".to_string())
        }]
    );
}
