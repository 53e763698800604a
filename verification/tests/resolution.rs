use dotrain::config::{IncludeEntry, RainConfig, SubgraphEntry};
use dotrain::resolver::{
    pending, plan, resolve, Progress, Request, Resolution, ResolveError, Response, Target,
};
use dotrain::store::{MetaRecord, Source};

fn ids(names: &[&str]) -> Vec<String> {
    names.iter().map(|s| s.to_string()).collect()
}

fn local(path: &str) -> Target {
    Target::Local(path.to_string())
}

fn remote(url: &str) -> Target {
    Target::Subgraph(url.to_string())
}

fn ask(id: &str, target: Target) -> Request {
    Request { id: id.to_string(), target }
}

fn reply(id: &str, target: Target, payload: Option<&str>) -> Response {
    Response { request: ask(id, target), payload: payload.map(|p| p.to_string()) }
}

fn included(id: &str, path: &str, skip: bool) -> IncludeEntry {
    IncludeEntry { id: id.to_string(), path: path.to_string(), skip }
}

fn endpoint(url: &str, skip: bool) -> SubgraphEntry {
    SubgraphEntry { url: url.to_string(), skip }
}

fn both() -> RainConfig {
    RainConfig::new(
        vec![included("0xabc", "abc.meta", false), included("0xdef", "def.meta", false)],
        vec![endpoint("https://one", false), endpoint("https://two", false)],
    )
    .unwrap()
}

fn fetch(progress: Result<Progress, ResolveError>) -> Request {
    match progress {
        Ok(Progress::Fetch(request)) => request,
        other => panic!("expected a request, got {:?}", other),
    }
}

fn done(progress: Result<Progress, ResolveError>) -> Resolution {
    match progress {
        Ok(Progress::Done(resolution)) => resolution,
        other => panic!("expected a finished resolution, got {:?}", other),
    }
}

#[test]
fn the_chain_is_local_files_then_endpoints_in_order() {
    let chain = plan(&"0xabc".to_string(), &both(), false, false);
    assert_eq!(chain, vec![local("abc.meta"), remote("https://one"), remote("https://two")]);
}

#[test]
fn the_chain_of_an_identifier_without_file_is_the_endpoints() {
    let chain = plan(&"0x123".to_string(), &both(), false, false);
    assert_eq!(chain, vec![remote("https://one"), remote("https://two")]);
}

#[test]
fn local_data_only_leaves_the_endpoints_out() {
    assert_eq!(plan(&"0xabc".to_string(), &both(), true, false), vec![local("abc.meta")]);
    assert_eq!(plan(&"0x123".to_string(), &both(), true, true), Vec::<Target>::new());
}

#[test]
fn flagged_entries_are_left_out_in_force_mode_only() {
    let config = RainConfig::new(
        vec![included("0xabc", "abc.meta", true)],
        vec![endpoint("https://one", true), endpoint("https://two", false)],
    )
    .unwrap();
    assert_eq!(
        plan(&"0xabc".to_string(), &config, false, false),
        vec![local("abc.meta"), remote("https://one"), remote("https://two")]
    );
    assert_eq!(plan(&"0xabc".to_string(), &config, false, true), vec![remote("https://two")]);
}

#[test]
fn no_dependencies_give_an_empty_store_whatever_the_configuration() {
    for config in [RainConfig::empty(), both()] {
        for local_only in [false, true] {
            for force in [false, true] {
                let responses = vec![reply("0xabc", local("abc.meta"), Some("x"))];
                let resolution = done(resolve(&ids(&[]), &config, local_only, force, &responses));
                assert!(resolution.store.is_empty());
                assert!(resolution.unresolved.is_empty());
            }
        }
    }
}

#[test]
fn the_local_file_is_asked_first() {
    let request = fetch(resolve(&ids(&["0xabc"]), &both(), false, false, &vec![]));
    assert_eq!(request, ask("0xabc", local("abc.meta")));
}

#[test]
fn a_local_payload_settles_the_identifier_without_any_query() {
    let responses = vec![reply("0xabc", local("abc.meta"), Some("LOCAL"))];
    let resolution = done(resolve(&ids(&["0xabc"]), &both(), false, false, &responses));
    assert_eq!(
        resolution.store.get("0xabc"),
        Some(&MetaRecord {
            id: "0xabc".to_string(),
            payload: "LOCAL".to_string(),
            source: Source::Local
        })
    );
    assert!(resolution.unresolved.is_empty());
}

#[test]
fn endpoints_are_asked_in_order_after_the_local_file() {
    let mut responses = vec![reply("0xabc", local("abc.meta"), None)];
    let first = fetch(resolve(&ids(&["0xabc"]), &both(), false, false, &responses));
    assert_eq!(first, ask("0xabc", remote("https://one")));
    responses.push(reply("0xabc", remote("https://one"), None));
    let second = fetch(resolve(&ids(&["0xabc"]), &both(), false, false, &responses));
    assert_eq!(second, ask("0xabc", remote("https://two")));
    responses.push(reply("0xabc", remote("https://two"), Some("REMOTE")));
    let resolution = done(resolve(&ids(&["0xabc"]), &both(), false, false, &responses));
    assert_eq!(
        resolution.store.get("0xabc"),
        Some(&MetaRecord {
            id: "0xabc".to_string(),
            payload: "REMOTE".to_string(),
            source: Source::Subgraph("https://two".to_string())
        })
    );
}

#[test]
fn the_first_endpoint_that_answers_wins() {
    let responses = vec![
        reply("0x123", remote("https://two"), Some("TWO")),
        reply("0x123", remote("https://one"), Some("ONE")),
    ];
    let resolution = done(resolve(&ids(&["0x123"]), &both(), false, false, &responses));
    let record = resolution.store.get("0x123").unwrap();
    assert_eq!(record.payload, "ONE");
    assert_eq!(record.source, Source::Subgraph("https://one".to_string()));
}

#[test]
fn local_data_takes_precedence_over_subgraphs() {
    let responses = vec![
        reply("0xabc", remote("https://one"), Some("REMOTE")),
        reply("0xabc", remote("https://two"), Some("REMOTE")),
        reply("0xabc", local("abc.meta"), Some("LOCAL")),
    ];
    for force in [false, true] {
        let resolution = done(resolve(&ids(&["0xabc"]), &both(), false, force, &responses));
        let record = resolution.store.get("0xabc").unwrap();
        assert_eq!(record.source, Source::Local);
        assert_eq!(record.payload, "LOCAL");
    }
}

#[test]
fn the_order_of_arrival_does_not_matter() {
    let one = vec![
        reply("0xabc", local("abc.meta"), None),
        reply("0xabc", remote("https://one"), Some("ONE")),
        reply("0xdef", local("def.meta"), Some("DEF")),
    ];
    let two = vec![
        reply("0xdef", local("def.meta"), Some("DEF")),
        reply("0xabc", remote("https://one"), Some("ONE")),
        reply("0xabc", local("abc.meta"), None),
    ];
    let wanted = ids(&["0xabc", "0xdef"]);
    let a = done(resolve(&wanted, &both(), false, false, &one));
    let b = done(resolve(&wanted, &both(), false, false, &two));
    for id in ["0xabc", "0xdef"] {
        assert_eq!(a.store.get(id), b.store.get(id));
        assert!(a.store.get(id).is_some());
    }
    assert_eq!(a.unresolved, b.unresolved);
}

#[test]
fn the_first_response_to_a_request_counts() {
    let responses = vec![
        reply("0xabc", local("abc.meta"), Some("FIRST")),
        reply("0xabc", local("abc.meta"), Some("SECOND")),
    ];
    let resolution = done(resolve(&ids(&["0xabc"]), &both(), false, false, &responses));
    assert_eq!(resolution.store.get("0xabc").unwrap().payload, "FIRST");
}

#[test]
fn an_exhausted_chain_fails_without_force() {
    let responses = vec![
        reply("0xabc", local("abc.meta"), None),
        reply("0xabc", remote("https://one"), None),
        reply("0xabc", remote("https://two"), None),
    ];
    let result = resolve(&ids(&["0xabc", "0xdef"]), &both(), false, false, &responses);
    assert!(matches!(result, Err(ResolveError::Unresolved(id)) if id == "0xabc"));
}

#[test]
fn an_empty_chain_fails_without_force() {
    let result = resolve(&ids(&["0xabc"]), &RainConfig::empty(), false, false, &vec![]);
    assert!(matches!(result, Err(ResolveError::Unresolved(id)) if id == "0xabc"));
}

#[test]
fn an_exhausted_chain_is_recorded_in_force_mode() {
    let responses = vec![
        reply("0xabc", local("abc.meta"), None),
        reply("0xabc", remote("https://one"), None),
        reply("0xabc", remote("https://two"), None),
        reply("0xdef", local("def.meta"), Some("DEF")),
    ];
    let resolution =
        done(resolve(&ids(&["0xabc", "0xdef", "0x123"]), &both(), true, true, &responses));
    assert_eq!(resolution.unresolved, ids(&["0xabc", "0x123"]));
    assert!(!resolution.store.contains("0xabc"));
    assert!(!resolution.store.contains("0x123"));
    assert_eq!(resolution.store.get("0xdef").unwrap().payload, "DEF");
}

#[test]
fn force_mode_never_fails() {
    let resolution = done(resolve(&ids(&["a", "b"]), &RainConfig::empty(), false, true, &vec![]));
    assert_eq!(resolution.unresolved, ids(&["a", "b"]));
    assert!(resolution.store.is_empty());
}

#[test]
fn local_data_only_turns_a_subgraph_hit_into_unresolved() {
    let responses = vec![reply("0x123", remote("https://one"), Some("ONE"))];
    let open = done(resolve(&ids(&["0x123"]), &both(), false, false, &responses));
    assert!(open.store.contains("0x123"));
    let closed = resolve(&ids(&["0x123"]), &both(), true, false, &responses);
    assert!(matches!(closed, Err(ResolveError::Unresolved(id)) if id == "0x123"));
    let forced = done(resolve(&ids(&["0x123"]), &both(), true, true, &responses));
    assert_eq!(forced.unresolved, ids(&["0x123"]));
}

#[test]
fn identifiers_are_settled_one_after_the_other() {
    let responses = vec![reply("0xdef", local("def.meta"), Some("DEF"))];
    let request = fetch(resolve(&ids(&["0xabc", "0xdef"]), &both(), false, false, &responses));
    assert_eq!(request, ask("0xabc", local("abc.meta")));
}

#[test]
fn a_repeated_identifier_keeps_its_first_record() {
    let responses = vec![reply("0xabc", local("abc.meta"), Some("LOCAL"))];
    let resolution = done(resolve(&ids(&["0xabc", "0xabc"]), &both(), false, false, &responses));
    assert_eq!(resolution.store.get("0xabc").unwrap().payload, "LOCAL");
    assert!(resolution.unresolved.is_empty());
}

#[test]
fn a_response_to_another_identifier_is_no_answer() {
    let responses = vec![reply("0xdef", local("abc.meta"), Some("X"))];
    let request = fetch(resolve(&ids(&["0xabc"]), &both(), false, false, &responses));
    assert_eq!(request, ask("0xabc", local("abc.meta")));
}

#[test]
fn pending_names_the_next_request_of_every_identifier() {
    let wanted = ids(&["0xabc", "0x123", "0xdef"]);
    assert_eq!(
        pending(&wanted, &both(), false, false, &vec![]),
        vec![
            ask("0xabc", local("abc.meta")),
            ask("0x123", remote("https://one")),
            ask("0xdef", local("def.meta")),
        ]
    );
    let responses = vec![
        reply("0xabc", local("abc.meta"), None),
        reply("0x123", remote("https://one"), Some("ONE")),
        reply("0xdef", local("def.meta"), None),
        reply("0xdef", remote("https://one"), None),
        reply("0xdef", remote("https://two"), None),
    ];
    assert_eq!(
        pending(&wanted, &both(), false, true, &responses),
        vec![ask("0xabc", remote("https://one"))]
    );
}

#[test]
fn pending_names_a_request_once() {
    let wanted = ids(&["0xabc", "0xabc"]);
    assert_eq!(
        pending(&wanted, &both(), true, false, &vec![]),
        vec![ask("0xabc", local("abc.meta"))]
    );
}

#[test]
fn nothing_is_pending_when_the_resolution_is_over() {
    let responses = vec![reply("0xabc", local("abc.meta"), Some("LOCAL"))];
    let wanted = ids(&["0xabc", "0x123"]);
    assert!(pending(&wanted, &both(), true, true, &responses).is_empty());
    let resolution = done(resolve(&wanted, &both(), true, true, &responses));
    assert_eq!(resolution.unresolved, ids(&["0x123"]));
    assert!(pending(&ids(&[]), &both(), false, false, &vec![]).is_empty());
}

#[test]
fn resolve_asks_for_the_first_pending_request() {
    let wanted = ids(&["0xdef", "0xabc"]);
    let responses = vec![reply("0xdef", local("def.meta"), None)];
    let all = pending(&wanted, &both(), false, false, &responses);
    let first = fetch(resolve(&wanted, &both(), false, false, &responses));
    assert_eq!(all[0], first);
    assert_eq!(first, ask("0xdef", remote("https://one")));
    assert_eq!(all.len(), 2);
}

#[test]
fn answering_everything_pending_in_rounds_finishes_the_resolution() {
    let wanted = ids(&["0xabc", "0x123", "0xdef"]);
    let mut responses: Vec<Response> = Vec::new();
    let mut rounds = 0;
    loop {
        let open = pending(&wanted, &both(), false, true, &responses);
        if open.is_empty() {
            break;
        }
        for request in open {
            let payload = match (&request.target, request.id.as_str()) {
                (Target::Subgraph(url), "0xabc") if url == "https://two" => Some("TWO".to_string()),
                (Target::Local(_), "0xdef") => Some("DEF".to_string()),
                _ => None,
            };
            responses.push(Response { request, payload });
        }
        rounds += 1;
    }
    assert_eq!(rounds, 3);
    let resolution = done(resolve(&wanted, &both(), false, true, &responses));
    assert_eq!(resolution.store.get("0xabc").unwrap().payload, "TWO");
    assert_eq!(resolution.store.get("0xdef").unwrap().source, Source::Local);
    assert_eq!(resolution.unresolved, ids(&["0x123"]));
}
