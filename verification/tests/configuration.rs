use dotrain::config::{
    ConfigDocument, ConfigError, DeclaredInclude, IncludeEntry, RainConfig, SubgraphEntry,
};

fn declared(id: &str, path: &str, reachable: bool) -> DeclaredInclude {
    DeclaredInclude { id: id.to_string(), path: path.to_string(), reachable }
}

fn entry(id: &str, path: &str, skip: bool) -> IncludeEntry {
    IncludeEntry { id: id.to_string(), path: path.to_string(), skip }
}

#[test]
fn no_path_gives_the_empty_configuration() {
    for force in [false, true] {
        let config = RainConfig::load(ConfigDocument::Absent, force).unwrap();
        assert!(config.includes().is_empty());
        assert!(config.subgraphs().is_empty());
        assert_eq!(config, RainConfig::empty());
    }
}

#[test]
fn a_malformed_document_is_a_parse_error() {
    for force in [false, true] {
        assert_eq!(RainConfig::load(ConfigDocument::Malformed, force), Err(ConfigError::Parse));
    }
}

#[test]
fn a_declared_document_is_taken_over_in_order() {
    let document = ConfigDocument::Declared {
        includes: vec![declared("0xabc", "a.meta", true), declared("0xdef", "d.meta", true)],
        subgraphs: vec!["https://one".to_string(), "https://two".to_string()],
    };
    let config = RainConfig::load(document, false).unwrap();
    assert_eq!(
        config.includes(),
        &vec![entry("0xabc", "a.meta", false), entry("0xdef", "d.meta", false)]
    );
    assert_eq!(
        config.subgraphs(),
        &vec![
            SubgraphEntry { url: "https://one".to_string(), skip: false },
            SubgraphEntry { url: "https://two".to_string(), skip: false },
        ]
    );
}

#[test]
fn a_repeated_identifier_is_an_error_whatever_force_says() {
    for force in [false, true] {
        let document = ConfigDocument::Declared {
            includes: vec![
                declared("a", "1", true),
                declared("b", "2", true),
                declared("b", "3", true),
                declared("a", "4", true),
            ],
            subgraphs: vec![],
        };
        assert_eq!(
            RainConfig::load(document, force),
            Err(ConfigError::DuplicateId("b".to_string()))
        );
    }
}

#[test]
fn a_repeated_identifier_comes_before_a_missing_file() {
    let document = ConfigDocument::Declared {
        includes: vec![declared("a", "1", false), declared("a", "2", true)],
        subgraphs: vec![],
    };
    assert_eq!(RainConfig::load(document, false), Err(ConfigError::DuplicateId("a".to_string())));
}

#[test]
fn an_unreachable_file_is_an_error_without_force() {
    let document = ConfigDocument::Declared {
        includes: vec![
            declared("a", "1.meta", true),
            declared("b", "2.meta", false),
            declared("c", "3.meta", false),
        ],
        subgraphs: vec![],
    };
    assert_eq!(
        RainConfig::load(document, false),
        Err(ConfigError::MissingInclude("2.meta".to_string()))
    );
}

#[test]
fn an_unreachable_file_is_flagged_with_force() {
    let document = ConfigDocument::Declared {
        includes: vec![declared("a", "1.meta", true), declared("b", "2.meta", false)],
        subgraphs: vec!["https://one".to_string()],
    };
    let config = RainConfig::load(document, true).unwrap();
    assert_eq!(
        config.includes(),
        &vec![entry("a", "1.meta", false), entry("b", "2.meta", true)]
    );
    assert_eq!(config.subgraphs().len(), 1);
}

#[test]
fn new_checks_the_identifiers() {
    let ok = RainConfig::new(
        vec![entry("a", "1", false), entry("b", "2", true)],
        vec![SubgraphEntry { url: "u".to_string(), skip: true }],
    )
    .unwrap();
    assert_eq!(ok.includes().len(), 2);
    assert_eq!(ok.subgraphs(), &vec![SubgraphEntry { url: "u".to_string(), skip: true }]);
    let bad = RainConfig::new(vec![entry("a", "1", false), entry("a", "2", false)], vec![]);
    assert_eq!(bad, Err(ConfigError::DuplicateId("a".to_string())));
}

#[test]
fn the_same_endpoint_may_stand_twice() {
    let config = RainConfig::new(
        vec![],
        vec![
            SubgraphEntry { url: "u".to_string(), skip: false },
            SubgraphEntry { url: "u".to_string(), skip: false },
        ],
    )
    .unwrap();
    assert_eq!(config.subgraphs().len(), 2);
}
