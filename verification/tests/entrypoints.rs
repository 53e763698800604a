use dotrain::document::{parse, DotrainDocument};
use dotrain::entrypoint::{implicit, resolve, Entrypoint, EntrypointError};

fn names(list: &[&str]) -> Vec<String> {
    list.iter().map(|s| s.to_string()).collect()
}

fn entry(name: &str, index: usize) -> Entrypoint {
    Entrypoint { name: name.to_string(), index }
}

fn three_named() -> DotrainDocument {
    parse("```first\n1\n```\n```\nanonymous\n```\n```second\n2\n```\n```third\n3\n```").unwrap()
}

#[test]
fn the_implicit_name_is_main() {
    assert_eq!(implicit(), "main");
}

#[test]
fn asking_for_every_name_gives_every_named_block_in_order() {
    let document = three_named();
    let all: Vec<String> =
        document.expressions().iter().filter_map(|block| block.name.clone()).collect();
    assert_eq!(all, names(&["first", "second", "third"]));
    assert_eq!(
        resolve(all, &document),
        Ok(vec![entry("first", 0), entry("second", 2), entry("third", 3)])
    );
}

#[test]
fn an_empty_request_stands_for_every_named_block() {
    assert_eq!(
        resolve(vec![], &three_named()),
        Ok(vec![entry("first", 0), entry("second", 2), entry("third", 3)])
    );
}

#[test]
fn an_empty_request_on_an_unnamed_document_is_the_implicit_entrypoint() {
    let document = parse("_: 1;").unwrap();
    assert_eq!(resolve(vec![], &document), Ok(vec![entry("main", 0)]));
    let fenced = parse("```\none\n```\n```\ntwo\n```").unwrap();
    assert_eq!(resolve(vec![], &fenced), Ok(vec![entry("main", 0)]));
}

#[test]
fn main_selects_the_first_block_of_an_unnamed_document() {
    let document = parse("_: 1;").unwrap();
    assert_eq!(resolve(names(&["main"]), &document), Ok(vec![entry("main", 0)]));
    assert_eq!(
        resolve(names(&["Main"]), &document),
        Err(EntrypointError::NotFound("Main".to_string()))
    );
}

#[test]
fn main_is_an_ordinary_name_where_blocks_are_named() {
    assert_eq!(
        resolve(names(&["main"]), &three_named()),
        Err(EntrypointError::NotFound("main".to_string()))
    );
    let document = parse("```other\n```\n```main\n```").unwrap();
    assert_eq!(resolve(names(&["main"]), &document), Ok(vec![entry("main", 1)]));
}

#[test]
fn the_request_order_is_kept() {
    assert_eq!(
        resolve(names(&["third", "first"]), &three_named()),
        Ok(vec![entry("third", 3), entry("first", 0)])
    );
}

#[test]
fn repeated_requests_collapse_to_the_first() {
    assert_eq!(
        resolve(names(&["second", "first", "second", "first", "third"]), &three_named()),
        Ok(vec![entry("second", 2), entry("first", 0), entry("third", 3)])
    );
}

#[test]
fn a_name_without_block_is_not_found() {
    assert_eq!(
        resolve(names(&["first", "missing", "absent"]), &three_named()),
        Err(EntrypointError::NotFound("missing".to_string()))
    );
}

#[test]
fn names_match_exactly() {
    for name in ["First", "first ", "fir", ""] {
        assert_eq!(
            resolve(names(&[name]), &three_named()),
            Err(EntrypointError::NotFound(name.to_string()))
        );
    }
}
