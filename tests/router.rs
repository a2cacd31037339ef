use squall_router::{RouteError, SquallRouter};

#[test]
fn test_resolve_no_validators() {
    let mut router = SquallRouter::new();
    router
        .add_route("GET".to_string(), "/name".to_string(), 0)
        .unwrap();
    router
        .add_route("GET".to_string(), "/name/{val}".to_string(), 1)
        .unwrap();
    // '.' is not among the characters a pattern may hold
    assert!(matches!(
        router.add_route("GET".to_string(), "/name/{val}/index.html".to_string(), 2),
        Err(RouteError::InvalidCharacter)
    ));
    assert!(matches!(
        router.add_route("GET".to_string(), "/{test}/index.html".to_string(), 3),
        Err(RouteError::InvalidCharacter)
    ));

    let result = router.resolve("GET", "/unknown");
    assert!(result.is_none());

    let result = router.resolve("GET", "/name");
    let (handler, params) = result.unwrap();
    assert_eq!(handler, 0);
    assert!(params.is_empty());

    // Ensure filtered by method
    assert!(router.resolve("POST", "/name").is_none());

    let result = router.resolve("GET", "/name/value");
    let (handler, params) = result.unwrap();
    assert_eq!(handler, 1);
    assert_eq!(params, vec![("val", "value")]);

    // the two refused patterns registered nothing
    assert!(router.resolve("GET", "/name/value2/index.html").is_none());
    assert!(router.resolve("GET", "/test2/index.html").is_none());
}

#[test]
fn nested_routes_resolve_by_depth() {
    let mut router = SquallRouter::new();
    router.add_route("GET".to_string(), "/name".to_string(), 0).unwrap();
    router.add_route("GET".to_string(), "/name/{val}".to_string(), 1).unwrap();
    router.add_route("GET".to_string(), "/name/{val}/index".to_string(), 2).unwrap();
    router.add_route("GET".to_string(), "/{test}/index".to_string(), 3).unwrap();

    assert!(router.resolve("GET", "/unknown").is_none());
    assert_eq!(router.resolve("GET", "/name").unwrap(), (0, vec![]));
    assert!(router.resolve("POST", "/name").is_none());
    assert_eq!(router.resolve("GET", "/name/value").unwrap(), (1, vec![("val", "value")]));
    assert_eq!(router.resolve("GET", "/name/value2/index").unwrap(), (2, vec![("val", "value2")]));
    assert_eq!(router.resolve("GET", "/test2/index").unwrap(), (3, vec![("test", "test2")]));
}

#[test]
fn test_resolve_with_validators() {
    let mut router = SquallRouter::new();
    router
        .add_validator("int".to_string(), r"^[0-9]+$".to_string())
        .unwrap();
    router
        .add_validator("no_int".to_string(), r"^[^0-9]+$".to_string())
        .unwrap();
    router
        .add_validator("user_id".to_string(), r"^ID-[0-9]+$".to_string())
        .unwrap();

    router
        .add_route("GET".to_string(), "/user/{user:int}".to_string(), 0)
        .unwrap();
    router
        .add_route("GET".to_string(), "/user/{user:user_id}".to_string(), 1)
        .unwrap();
    // '.' is not among the characters a pattern may hold
    assert!(matches!(
        router.add_route(
            "GET".to_string(),
            "/user/{user:int}/index.html".to_string(),
            2,
        ),
        Err(RouteError::InvalidCharacter)
    ));
    assert!(matches!(
        router.add_route(
            "GET".to_string(),
            "/user/{user:no_int}/index.html".to_string(),
            3,
        ),
        Err(RouteError::InvalidCharacter)
    ));

    let result = router.resolve("GET", "/user/123");
    let (handler, params) = result.unwrap();
    assert_eq!(handler, 0);
    assert_eq!(params, vec![("user", "123")]);

    let result = router.resolve("GET", "/user/ID-123");
    let (handler, params) = result.unwrap();
    assert_eq!(handler, 1);
    assert_eq!(params, vec![("user", "ID-123")]);

    assert!(router.resolve("GET", "/user/123/index.html").is_none());
    assert!(router.resolve("GET", "/user/john/index.html").is_none());
}

#[test]
fn validated_nested_routes_pick_the_accepting_entry() {
    let mut router = SquallRouter::new();
    router.add_validator("int".to_string(), r"^[0-9]+$".to_string()).unwrap();
    router.add_validator("no_int".to_string(), r"^[^0-9]+$".to_string()).unwrap();
    router.add_validator("user_id".to_string(), r"^ID-[0-9]+$".to_string()).unwrap();
    router.add_route("GET".to_string(), "/user/{user:int}".to_string(), 0).unwrap();
    router.add_route("GET".to_string(), "/user/{user:user_id}".to_string(), 1).unwrap();
    router.add_route("GET".to_string(), "/user/{user:int}/index".to_string(), 2).unwrap();
    router.add_route("GET".to_string(), "/user/{user:no_int}/index".to_string(), 3).unwrap();

    assert_eq!(router.resolve("GET", "/user/123").unwrap(), (0, vec![("user", "123")]));
    assert_eq!(router.resolve("GET", "/user/ID-123").unwrap(), (1, vec![("user", "ID-123")]));
    assert_eq!(router.resolve("GET", "/user/123/index").unwrap(), (2, vec![("user", "123")]));
    assert_eq!(router.resolve("GET", "/user/john/index").unwrap(), (3, vec![("user", "john")]));
    assert!(router.resolve("GET", "/user/ID-1x/index").is_none());
}

#[test]
fn test_wrong_validator() {
    let mut router = SquallRouter::new();

    assert!(router
        .add_validator("int".to_string(), r"^[0-9+$".to_string())
        .is_err());
}

#[test]
fn test_absent_validator() {
    let mut router = SquallRouter::new();

    let route = router.add_route("GET".to_string(), "/{val:int}".to_string(), 0);

    assert!(route.is_err());
}

#[test]
fn test_ignore_trailing_slashes_enabled() {
    let mut router = SquallRouter::new();
    router.set_ignore_trailing_slashes();
    router
        .add_route("GET".to_string(), "/user/{user}/".to_string(), 2)
        .unwrap();

    router
        .add_route("GET".to_string(), "/issue/{issue}".to_string(), 3)
        .unwrap();

    router
        .add_route("GET".to_string(), "/trailing/".to_string(), 4)
        .unwrap();

    router
        .add_route("GET".to_string(), "/notrailing".to_string(), 5)
        .unwrap();

    let result = router.resolve("GET", "/user/john/");
    let (handler, params) = result.unwrap();
    assert_eq!(handler, 2);
    assert_eq!(params, vec![("user", "john")]);

    let result = router.resolve("GET", "/user/john");
    let (handler, params) = result.unwrap();
    assert_eq!(handler, 2);
    assert_eq!(params, vec![("user", "john")]);

    let result = router.resolve("GET", "/issue/test/");
    let (handler, params) = result.unwrap();
    assert_eq!(handler, 3);
    assert_eq!(params, vec![("issue", "test")]);

    let result = router.resolve("GET", "/issue/test");
    let (handler, params) = result.unwrap();
    assert_eq!(handler, 3);
    assert_eq!(params, vec![("issue", "test")]);

    let result = router.resolve("GET", "/trailing/");
    let (handler, params) = result.unwrap();
    assert_eq!(handler, 4);
    assert_eq!(params, vec![]);

    let result = router.resolve("GET", "/trailing");
    let (handler, params) = result.unwrap();
    assert_eq!(handler, 4);
    assert_eq!(params, vec![]);

    let result = router.resolve("GET", "/notrailing/");
    let (handler, params) = result.unwrap();
    assert_eq!(handler, 5);
    assert_eq!(params, vec![]);

    let result = router.resolve("GET", "/notrailing");
    let (handler, params) = result.unwrap();
    assert_eq!(handler, 5);
    assert_eq!(params, vec![]);
}

#[test]
fn test_ignore_trailing_slashes_disabled() {
    let mut router = SquallRouter::new();
    router
        .add_route("GET".to_string(), "/user/{user}/".to_string(), 2)
        .unwrap();

    router
        .add_route("GET".to_string(), "/issue/{issue}".to_string(), 3)
        .unwrap();

    router
        .add_route("GET".to_string(), "/static/".to_string(), 4)
        .unwrap();

    router
        .add_route("GET".to_string(), "/static".to_string(), 5)
        .unwrap();

    // A pattern's trailing slash is normalized away, so "/user/{user}/" has
    // two segments; the request below has three (the last one empty).
    let result = router.resolve("GET", "/user/john/");
    assert!(result.is_none());

    let result = router.resolve("GET", "/user/john");
    let (handler, params) = result.unwrap();
    assert_eq!(handler, 2);
    assert_eq!(params, vec![("user", "john")]);

    let result = router.resolve("GET", "/issue/test/");
    assert!(result.is_none());

    let result = router.resolve("GET", "/issue/test");
    let (handler, params) = result.unwrap();
    assert_eq!(handler, 3);
    assert_eq!(params, vec![("issue", "test")]);

    let result = router.resolve("GET", "/static/");
    let (handler, params) = result.unwrap();
    assert_eq!(handler, 4);
    assert_eq!(params, vec![]);

    let result = router.resolve("GET", "/static");
    let (handler, params) = result.unwrap();
    assert_eq!(handler, 5);
    assert_eq!(params, vec![]);
}

#[test]
fn worked_example_resolves() {
    let mut router = SquallRouter::new();
    router.add_validator("int".to_string(), r"[0-9]+".to_string()).unwrap();
    router
        .add_validator(
            "uuid".to_string(),
            r"[0-9a-f]{8}-[0-9a-f]{4}-[0-9a-f]{4}-[0-9a-f]{4}-[0-9a-f]{12}".to_string(),
        )
        .unwrap();
    router
        .add_route("GET".to_string(), "/route/without/dynamic/octets".to_string(), 0)
        .unwrap();
    router
        .add_route(
            "GET".to_string(),
            "/route/aaa/{string_param}/bbb/{num_param:int}/ccc/{uuid_param:uuid}".to_string(),
            1,
        )
        .unwrap();
    router.add_location("GET".to_string(), "/files/css".to_string(), 2);

    let (h0, static_params) = router.resolve("GET", "/route/without/dynamic/octets").unwrap();
    assert_eq!(h0, 0);
    assert!(static_params.is_empty());

    let (h1, dynamic_params) = router
        .resolve(
            "GET",
            "/route/aaa/aaa_value/bbb/1234/ccc/4bea5a51-1b80-4433-be06-d52726015591",
        )
        .unwrap();
    assert_eq!(h1, 1);
    assert_eq!(
        dynamic_params,
        vec![
            ("string_param", "aaa_value"),
            ("num_param", "1234"),
            ("uuid_param", "4bea5a51-1b80-4433-be06-d52726015591"),
        ]
    );

    let (h2, location_params) = router.resolve("GET", "/files/css/vendor/style.css").unwrap();
    assert_eq!(h2, 2);
    assert!(location_params.is_empty());

    assert!(router.resolve("GET", "/unknown").is_none());
}

#[test]
fn absent_validator_registers_nothing() {
    let mut router = SquallRouter::new();
    match router.add_route("GET".to_string(), "/{val:int}".to_string(), 0) {
        Err(RouteError::UnknownValidatorAlias(alias)) => assert_eq!(alias, "int"),
        other => panic!("unexpected {:?}", other),
    }
    assert!(router.resolve("GET", "/5").is_none());
    assert!(router.resolve("GET", "/{val:int}").is_none());
}

#[test]
fn location_with_unknown_alias_is_dropped() {
    let mut router = SquallRouter::new();
    router.add_location("GET".to_string(), "/files/{f:ext}".to_string(), 7);
    assert!(router.resolve("GET", "/files/{f:ext}").is_none());
    assert!(router.resolve("GET", "/files/{f:ext}/more").is_none());
    assert!(router.add_route("GET".to_string(), "/files/{f:ext}".to_string(), 7).is_err());
}

#[test]
fn static_route_wins_over_dynamic() {
    let mut router = SquallRouter::new();
    router.add_route("GET".to_string(), "/user/{id}".to_string(), 1).unwrap();
    router.add_route("GET".to_string(), "/user/me".to_string(), 2).unwrap();
    let (h, p) = router.resolve("GET", "/user/me").unwrap();
    assert_eq!(h, 2);
    assert!(p.is_empty());
    let (h, p) = router.resolve("GET", "/user/you").unwrap();
    assert_eq!(h, 1);
    assert_eq!(p, vec![("id", "you")]);
}

#[test]
fn static_route_keeps_first_entry_per_method() {
    let mut router = SquallRouter::new();
    router.add_route("GET".to_string(), "/a".to_string(), 1).unwrap();
    router.add_route("POST".to_string(), "/a".to_string(), 2).unwrap();
    router.add_route("GET".to_string(), "/a".to_string(), 3).unwrap();
    assert_eq!(router.resolve("GET", "/a").unwrap().0, 1);
    assert_eq!(router.resolve("POST", "/a").unwrap().0, 2);
    assert!(router.resolve("PUT", "/a").is_none());
}

#[test]
fn dynamic_route_binds_any_non_empty_segment() {
    let mut router = SquallRouter::new();
    router.add_route("GET".to_string(), "/item/{id}/{part}".to_string(), 9).unwrap();
    let (h, p) = router.resolve("GET", "/item/\u{fc}ber/x-y").unwrap();
    assert_eq!(h, 9);
    assert_eq!(p, vec![("id", "\u{fc}ber"), ("part", "x-y")]);
    assert!(router.resolve("GET", "/item//x").is_none());
    assert!(router.resolve("GET", "item/a/b").is_none());
    assert!(router.resolve("GET", "/item/a").is_none());
}

#[test]
fn rejected_entry_falls_through_to_sibling() {
    let mut router = SquallRouter::new();
    router.add_validator("num".to_string(), "^[0-9]+$".to_string()).unwrap();
    router.add_route("GET".to_string(), "/v/{x:num}".to_string(), 1).unwrap();
    router.add_route("GET".to_string(), "/v/{x}".to_string(), 2).unwrap();
    assert_eq!(router.resolve("GET", "/v/12").unwrap(), (1, vec![("x", "12")]));
    assert_eq!(router.resolve("GET", "/v/ab").unwrap(), (2, vec![("x", "ab")]));

    let mut only = SquallRouter::new();
    only.add_validator("num".to_string(), "^[0-9]+$".to_string()).unwrap();
    only.add_route("GET".to_string(), "/v/{x:num}".to_string(), 1).unwrap();
    assert!(only.resolve("GET", "/v/ab").is_none());
}

#[test]
fn literal_child_is_preferred_without_backtracking() {
    let mut router = SquallRouter::new();
    router.add_route("GET".to_string(), "/a/{x}/c".to_string(), 1).unwrap();
    router.add_route("GET".to_string(), "/{y}/b/d".to_string(), 2).unwrap();
    assert_eq!(router.resolve("GET", "/a/z/c").unwrap().0, 1);
    // "a" takes the literal branch, which has no "d" after it
    assert!(router.resolve("GET", "/a/b/d").is_none());
    assert_eq!(router.resolve("GET", "/q/b/d").unwrap(), (2, vec![("y", "q")]));
}

#[test]
fn str_alias_has_no_validator() {
    let mut router = SquallRouter::new();
    router.add_route("GET".to_string(), "/s/{v:str}".to_string(), 4).unwrap();
    assert_eq!(router.resolve("GET", "/s/anything").unwrap(), (4, vec![("v", "anything")]));
}

#[test]
fn longer_location_prefix_is_tried_first() {
    let mut router = SquallRouter::new();
    router.add_location("GET".to_string(), "/files".to_string(), 1);
    router.add_location("GET".to_string(), "/files/css".to_string(), 2);
    router.add_location("POST".to_string(), "/files/css".to_string(), 3);
    assert_eq!(router.resolve("GET", "/files/css/a.css").unwrap().0, 2);
    assert_eq!(router.resolve("POST", "/files/css/a.css").unwrap().0, 3);
    assert_eq!(router.resolve("GET", "/files/js/a.js").unwrap().0, 1);
    assert_eq!(router.resolve("POST", "/files/js/a.js"), None);
    assert!(router.resolve("GET", "/other").is_none());
}

#[test]
fn dynamic_route_wins_over_location() {
    let mut router = SquallRouter::new();
    router.add_location("GET".to_string(), "/api".to_string(), 1);
    router.add_route("GET".to_string(), "/api/{v}".to_string(), 2).unwrap();
    assert_eq!(router.resolve("GET", "/api/x").unwrap().0, 2);
    assert_eq!(router.resolve("GET", "/api/x/y").unwrap().0, 1);
}

#[test]
fn trailing_slash_mode_applies_to_patterns_and_paths() {
    let mut router = SquallRouter::new();
    router.set_ignore_trailing_slashes();
    router.add_route("GET".to_string(), "/user/{u}/".to_string(), 1).unwrap();
    for u in ["a", "john", "x-1"] {
        let with = format!("/user/{}/", u);
        let without = format!("/user/{}", u);
        assert_eq!(router.resolve("GET", &with), router.resolve("GET", &without));
        assert_eq!(router.resolve("GET", &without).unwrap(), (1, vec![("u", u)]));
    }
}

#[test]
fn partial_dynamic_segment_is_refused() {
    let mut router = SquallRouter::new();
    assert!(matches!(
        router.add_route("GET".to_string(), "/user/ID-{user_id}".to_string(), 0),
        Err(RouteError::PartialDynamicSegment)
    ));
    assert!(matches!(
        router.add_route("GET".to_string(), "/user name".to_string(), 0),
        Err(RouteError::InvalidCharacter)
    ));
}

#[test]
fn empty_segment_takes_the_wildcard() {
    let mut router = SquallRouter::new();
    router.add_validator("opt".to_string(), "^[0-9]*$".to_string()).unwrap();
    router.add_route("GET".to_string(), "/a/{x:opt}".to_string(), 1).unwrap();
    assert_eq!(router.resolve("GET", "/a/").unwrap(), (1, vec![("x", "")]));
    assert_eq!(router.resolve("GET", "/a/42").unwrap(), (1, vec![("x", "42")]));
    assert!(router.resolve("GET", "/a/x").is_none());

    let mut anonymous = SquallRouter::new();
    anonymous.add_route("GET".to_string(), "/a/{}".to_string(), 2).unwrap();
    assert_eq!(anonymous.resolve("GET", "/a/").unwrap(), (2, vec![]));
}

#[test]
fn unvalidated_parameter_refuses_empty_segment() {
    let mut router = SquallRouter::new();
    router.add_route("GET".to_string(), "/a/{x}".to_string(), 1).unwrap();
    router.add_route("GET".to_string(), "/a/{}".to_string(), 2).unwrap();
    assert_eq!(router.resolve("GET", "/a/").unwrap(), (2, vec![]));
    assert_eq!(router.resolve("GET", "/a/b").unwrap(), (1, vec![("x", "b")]));
}

#[test]
fn root_route_in_trailing_slash_mode() {
    let mut router = SquallRouter::new();
    router.set_ignore_trailing_slashes();
    router.add_route("GET".to_string(), "/".to_string(), 1).unwrap();
    assert_eq!(router.resolve("GET", "/").unwrap(), (1, vec![]));
    assert_eq!(router.resolve("GET", "").unwrap(), (1, vec![]));
    assert!(router.resolve("GET", "/a").is_none());
}

#[test]
fn empty_pattern_is_a_static_route() {
    let mut router = SquallRouter::new();
    router.add_route("GET".to_string(), "".to_string(), 3).unwrap();
    assert_eq!(router.resolve("GET", "").unwrap(), (3, vec![]));
    assert!(router.resolve("GET", "/").is_none());
}

#[test]
fn undeclared_alias_errs_for_routes_and_is_ignored_for_locations() {
    let mut router = SquallRouter::new();
    match router.add_route("GET".to_string(), "/x/{field:undeclared_alias}".to_string(), 1) {
        Err(RouteError::UnknownValidatorAlias(alias)) => assert_eq!(alias, "undeclared_alias"),
        other => panic!("unexpected {:?}", other),
    }
    router.add_location("GET".to_string(), "/x/{field:undeclared_alias}".to_string(), 2);
    assert!(router.resolve("GET", "/x/{field:undeclared_alias}").is_none());
    assert!(router.resolve("GET", "/x/{field:undeclared_alias}/y").is_none());
    assert!(router.resolve("GET", "/x/v").is_none());
}
