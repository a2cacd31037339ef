use squall_router::{PathParser, RouteError};

#[test]
fn test_dynamic_path_parse_without_validators() {
    let parser = PathParser::new();
    let path = parser.parse("/route/aaa/{num}/bbb/{num2}").unwrap();

    assert_eq!(path.octets, vec!["route", "aaa", "*", "bbb", "*"]);
    assert_eq!(path.params_names, vec!["num", "num2"]);
    assert_eq!(path.params_values[0].index, 2);
    assert!(path.params_values[0].validator.is_none());
    assert_eq!(path.params_values[1].index, 4);
    assert!(path.params_values[1].validator.is_none());
}

#[test]
fn test_dynamic_path_parse_with_validators() {
    let mut parser = PathParser::new();
    parser.add_validator("int".to_string(), r"[0-9]+".to_string()).unwrap();
    let path = parser.parse("/route/aaa/{num}/bbb/{num2:int}").unwrap();

    assert_eq!(path.octets, vec!["route", "aaa", "*", "bbb", "*"]);
    assert_eq!(path.params_names, vec!["num", "num2"]);
    assert_eq!(path.params_values[0].index, 2);
    assert!(path.params_values[0].validator.is_none());
    assert_eq!(path.params_values[1].index, 4);
    assert_eq!(
        path.params_values[1].validator.as_ref().unwrap().as_str(),
        "[0-9]+"
    );
}

#[test]
fn test_dynamic_path_parse_absent_validator() {
    let parser = PathParser::new();
    let path = parser.parse("/route/aaa/{num:int}");
    assert!(path.is_err())
}

#[test]
fn test_add_validator_error() {
    let mut parser = PathParser::new();
    let result = parser.add_validator("int".to_string(), r"([0-9]+".to_string());
    assert!(result.is_err())
}

#[test]
fn parse_keeps_origin_and_counts_params() {
    let mut parser = PathParser::new();
    parser.add_validator("int".to_string(), r"[0-9]+".to_string()).unwrap();
    let path = parser.parse("/route/aaa/{num}/bbb/{num2:str}/ccc/{num3:int}").unwrap();
    assert_eq!(path.origin, "/route/aaa/{num}/bbb/{num2:str}/ccc/{num3:int}");
    assert_eq!(path.octets, vec!["route", "aaa", "*", "bbb", "*", "ccc", "*"]);
    assert_eq!(path.params_names, vec!["num", "num2", "num3"]);
    assert_eq!(path.params_len, 3);
    assert_eq!(path.params_values[1].index, 4);
    assert!(path.params_values[1].validator.is_none());
    assert_eq!(path.params_values[2].index, 6);
    assert_eq!(path.params_values[2].validator.as_ref().unwrap().as_str(), "[0-9]+");
}

#[test]
fn parse_empty_pattern_has_no_segment() {
    let parser = PathParser::new();
    let path = parser.parse("").unwrap();
    assert!(path.octets.is_empty());
    assert!(path.params_names.is_empty());
    assert_eq!(path.params_len, 0);
}

#[test]
fn parse_rejects_characters_outside_the_set() {
    let parser = PathParser::new();
    assert!(matches!(parser.parse("/a b"), Err(RouteError::InvalidCharacter)));
    assert!(matches!(parser.parse("/a?b"), Err(RouteError::InvalidCharacter)));
    assert!(matches!(parser.parse("/caf\u{e9}"), Err(RouteError::InvalidCharacter)));
    assert!(matches!(parser.parse("^/a$"), Err(RouteError::InvalidCharacter)));
}

#[test]
fn parse_accepts_every_listed_character() {
    let parser = PathParser::new();
    let path = parser.parse("/aZ09_:%-~!&'+,;=@").unwrap();
    assert_eq!(path.octets, vec!["aZ09_:%-~!&'+,;=@"]);
    assert!(path.params_names.is_empty());
}

#[test]
fn parse_rejects_partial_dynamic_segment() {
    let parser = PathParser::new();
    assert!(matches!(
        parser.parse("/api/v1/user/ID-{user_id}"),
        Err(RouteError::PartialDynamicSegment)
    ));
    assert!(matches!(parser.parse("/a/b*c"), Err(RouteError::PartialDynamicSegment)));
    let ok = parser.parse("/api/v1/user/{user_id}").unwrap();
    assert_eq!(ok.octets, vec!["api", "v1", "user", "*"]);
}

#[test]
fn parse_reports_unknown_alias_by_name() {
    let parser = PathParser::new();
    match parser.parse("/a/{x:str}/{y:uuid}") {
        Err(RouteError::UnknownValidatorAlias(alias)) => assert_eq!(alias, "uuid"),
        other => panic!("unexpected {:?}", other.map(|p| p.params_len)),
    }
}

#[test]
fn parse_counts_indices_among_non_empty_segments() {
    let parser = PathParser::new();
    let path = parser.parse("//a//{x}/").unwrap();
    assert_eq!(path.octets, vec!["a", "*"]);
    assert_eq!(path.params_values[0].index, 1);
}

#[test]
fn parse_braces_without_a_name_are_dynamic_without_parameter() {
    let parser = PathParser::new();
    let path = parser.parse("/a/{}/{1x}").unwrap();
    assert_eq!(path.octets, vec!["a", "*", "*"]);
    assert!(path.params_names.is_empty());
}

#[test]
fn later_validator_of_an_alias_wins() {
    let mut parser = PathParser::new();
    parser.add_validator("id".to_string(), "^[0-9]+$".to_string()).unwrap();
    parser.add_validator("id".to_string(), "^[a-z]+$".to_string()).unwrap();
    let path = parser.parse("/{x:id}").unwrap();
    let v = path.params_values[0].validator.as_ref().unwrap();
    assert_eq!(v.as_str(), "^[a-z]+$");
    assert!(v.accepts("abc"));
    assert!(!v.accepts("123"));
    assert_eq!(v.duplicate().as_str(), "^[a-z]+$");
}

#[test]
fn regex_error_carries_a_message() {
    let mut parser = PathParser::new();
    match parser.add_validator("int".to_string(), "^[0-9+$".to_string()) {
        Err(RouteError::RegexCompileError(msg)) => assert!(!msg.is_empty()),
        other => panic!("unexpected {:?}", other),
    }
}
