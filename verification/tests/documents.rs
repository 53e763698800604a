use dotrain::document::{parse, Binding, ExpressionBlock, ParseError};

fn binding(key: &str, value: &str) -> Binding {
    Binding { key: key.to_string(), value: value.to_string() }
}

fn block(name: Option<&str>, body: &str) -> ExpressionBlock {
    ExpressionBlock { name: name.map(|n| n.to_string()), body: body.to_string() }
}

#[test]
fn a_plain_text_is_one_unnamed_block() {
    let source = "_ _: add(1 2);\n_: 3;";
    let document = parse(source).unwrap();
    assert!(document.frontmatter().is_empty());
    assert!(document.dependency_ids().is_empty());
    assert_eq!(document.expressions(), &vec![block(None, source)]);
}

#[test]
fn the_empty_text_is_one_empty_block() {
    let document = parse("").unwrap();
    assert_eq!(document.expressions(), &vec![block(None, "")]);
}

#[test]
fn a_trailing_line_feed_stays_in_the_implicit_block() {
    let document = parse("a\nb\n").unwrap();
    assert_eq!(document.expressions(), &vec![block(None, "a\nb\n")]);
}

#[test]
fn front_matter_gives_bindings_in_order() {
    let source = "---\ntitle: An example\n\n  author :  someone  \nurl: https://x.y/z\n---\nbody";
    let document = parse(source).unwrap();
    assert_eq!(
        document.frontmatter(),
        &vec![
            binding("title", "An example"),
            binding("author", "someone"),
            binding("url", "https://x.y/z"),
        ]
    );
    assert!(document.dependency_ids().is_empty());
    assert_eq!(document.expressions(), &vec![block(None, "body")]);
}

#[test]
fn uses_bindings_declare_dependencies_once_in_order_of_first_mention() {
    let source = "---\nuses: 0xdef\nname: x\nuses: 0xabc\nuses: 0xdef\n---\n";
    let document = parse(source).unwrap();
    assert_eq!(document.dependency_ids(), &vec!["0xdef".to_string(), "0xabc".to_string()]);
    assert_eq!(document.frontmatter().len(), 4);
    assert_eq!(document.expressions(), &vec![block(None, "")]);
}

#[test]
fn an_empty_value_is_a_binding() {
    let document = parse("---\nkey:\n---").unwrap();
    assert_eq!(document.frontmatter(), &vec![binding("key", "")]);
    assert_eq!(document.expressions(), &vec![block(None, "")]);
}

#[test]
fn carriage_returns_are_blanks() {
    let document = parse("---\r\nuses: 0xabc\r\n---\r\nbody").unwrap();
    assert_eq!(document.dependency_ids(), &vec!["0xabc".to_string()]);
    assert_eq!(document.expressions(), &vec![block(None, "body")]);
}

#[test]
fn the_delimiters_may_be_indented() {
    let document = parse("  ---\t\nuses: a\n --- \nx").unwrap();
    assert_eq!(document.dependency_ids(), &vec!["a".to_string()]);
    assert_eq!(document.expressions(), &vec![block(None, "x")]);
}

#[test]
fn hyphens_behind_the_first_line_are_body() {
    let document = parse("text\n---\nuses: a\n---").unwrap();
    assert!(document.frontmatter().is_empty());
    assert_eq!(document.expressions(), &vec![block(None, "text\n---\nuses: a\n---")]);
}

#[test]
fn unclosed_front_matter_is_malformed() {
    assert_eq!(parse("---\nuses: 0xabc\nbody"), Err(ParseError::MalformedFrontmatter));
    assert_eq!(parse("---"), Err(ParseError::MalformedFrontmatter));
}

#[test]
fn a_front_matter_line_without_colon_is_malformed() {
    assert_eq!(parse("---\nno colon here\n---\n"), Err(ParseError::MalformedFrontmatter));
}

#[test]
fn a_front_matter_line_without_key_is_malformed() {
    assert_eq!(parse("---\n : value\n---\n"), Err(ParseError::MalformedFrontmatter));
}

#[test]
fn a_uses_binding_holds_one_identifier() {
    assert_eq!(parse("---\nuses: 0xabc 0xdef\n---\n"), Err(ParseError::MalformedFrontmatter));
    assert_eq!(parse("---\nuses:\n---\n"), Err(ParseError::MalformedFrontmatter));
    assert_eq!(parse("---\nuses: a-b\n---\n"), Err(ParseError::MalformedFrontmatter));
    assert!(parse("---\nuses: A_b9\n---\n").is_ok());
    assert!(parse("---\nUses: a b\n---\n").is_ok());
}

#[test]
fn fenced_blocks_are_taken_out_of_the_prose() {
    let source = "Some prose.\n```main\n_: 1;\n_: 2;\n```\nMore prose.\n```\nunnamed\n```\n``` other \n```";
    let document = parse(source).unwrap();
    assert_eq!(
        document.expressions(),
        &vec![block(Some("main"), "_: 1;\n_: 2;"), block(None, "unnamed"), block(Some("other"), "")]
    );
}

#[test]
fn fences_may_be_indented() {
    let document = parse("  ```main\r\n  body \n\t```  ").unwrap();
    assert_eq!(document.expressions(), &vec![block(Some("main"), "  body ")]);
}

#[test]
fn inside_a_block_only_a_bare_fence_closes() {
    let document = parse("```a\n```b\n```").unwrap();
    assert_eq!(document.expressions(), &vec![block(Some("a"), "```b")]);
}

#[test]
fn an_open_block_is_unterminated() {
    assert_eq!(parse("```main\n_: 1;"), Err(ParseError::UnterminatedBlock));
    assert_eq!(parse("```a\n```\n```"), Err(ParseError::UnterminatedBlock));
    assert_eq!(parse("---\nuses: a\n---\n```"), Err(ParseError::UnterminatedBlock));
}

#[test]
fn two_blocks_of_one_name_are_an_error() {
    assert_eq!(parse("```a\n```\n```b\n```\n```a\n```"), Err(ParseError::DuplicateBlockName));
}

#[test]
fn unnamed_blocks_may_repeat() {
    let document = parse("```\none\n```\n```\ntwo\n```").unwrap();
    assert_eq!(document.expressions(), &vec![block(None, "one"), block(None, "two")]);
}

#[test]
fn the_front_matter_is_judged_before_the_body() {
    assert_eq!(parse("---\nbad\n---\n```a"), Err(ParseError::MalformedFrontmatter));
}

#[test]
fn an_unterminated_block_is_judged_before_a_repeated_name() {
    assert_eq!(parse("```a\n```\n```a\n```\n```b"), Err(ParseError::UnterminatedBlock));
}

#[test]
fn front_matter_and_blocks_together() {
    let source = "---\nuses: 0xabc\n---\nIntro\n```calc\n_: @0xabc;\n```\n";
    let document = parse(source).unwrap();
    assert_eq!(document.frontmatter(), &vec![binding("uses", "0xabc")]);
    assert_eq!(document.dependency_ids(), &vec!["0xabc".to_string()]);
    assert_eq!(document.expressions(), &vec![block(Some("calc"), "_: @0xabc;")]);
}

#[test]
fn binding_gives_the_first_value_of_a_key() {
    let document = parse("---\nname: one\nuses: a\nname: two\nuses: b\n---\n").unwrap();
    assert_eq!(document.binding("name"), Some(&"one".to_string()));
    assert_eq!(document.binding("uses"), Some(&"a".to_string()));
    assert_eq!(document.binding("Name"), None);
    assert_eq!(document.binding(""), None);
    assert_eq!(parse("body").unwrap().binding("name"), None);
}
