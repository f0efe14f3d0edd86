use razel::target_pattern::{ParseError, ParseErrorKind, PatternScope, TargetPattern};

#[test]
fn parse_parses_single_target() {
    assert_eq!(
        TargetPattern::parse("//path/to/pkg:target"),
        Ok(TargetPattern {
            package: "path/to/pkg".to_owned(),
            scope: PatternScope::SingleTarget("target".to_owned()),
        })
    )
}

#[test]
fn parse_parses_package_scope() {
    assert_eq!(
        TargetPattern::parse("//path/to/pkg:all"),
        Ok(TargetPattern {
            package: "path/to/pkg".to_owned(),
            scope: PatternScope::Package,
        })
    )
}

#[test]
fn parse_parses_descendants_scope() {
    assert_eq!(
        TargetPattern::parse("//path/to/pkg/..."),
        Ok(TargetPattern {
            package: "path/to/pkg".to_owned(),
            scope: PatternScope::Descendants,
        })
    )
}

#[test]
fn parse_non_absolute_package_errors() {
    let err = TargetPattern::parse("relative/path/to/pkg:target").unwrap_err();

    assert!(err.message().contains("must start with `//`"));
    assert_eq!(err.kind, ParseErrorKind::MissingPrefix);
}

#[test]
fn parse_pattern_without_target_errors() {
    let err = TargetPattern::parse("//path/to/pkg").unwrap_err();

    assert!(err.message().contains("must end with `:target` or `/...`"));
    assert_eq!(err.kind, ParseErrorKind::MissingTargetOrDescendants);
}

#[test]
fn parse_pattern_with_multiple_colons_errors() {
    let err = TargetPattern::parse("//path/to/pkg:foo:bar").unwrap_err();

    assert!(err.message().contains("may contain at most one `:`"));
    assert_eq!(err.kind, ParseErrorKind::TooManyColons);
}

#[test]
fn displays_single_target_pattern() {
    assert_eq!(
        TargetPattern {
            package: "path/to/pkg".to_owned(),
            scope: PatternScope::SingleTarget("target".to_owned()),
        }
        .format(),
        "//path/to/pkg:target",
    );
}

#[test]
fn displays_package_scope_pattern() {
    assert_eq!(
        TargetPattern {
            package: "path/to/pkg".to_owned(),
            scope: PatternScope::Package,
        }
        .format(),
        "//path/to/pkg:all",
    );
}

#[test]
fn displays_descendant_scope_pattern() {
    assert_eq!(
        TargetPattern {
            package: "path/to/pkg".to_owned(),
            scope: PatternScope::Descendants,
        }
        .format(),
        "//path/to/pkg/...",
    );
}

#[test]
fn round_trips_each_scope_through_text() {
    let patterns = vec![
        TargetPattern {
            package: "a/b".to_owned(),
            scope: PatternScope::SingleTarget("c".to_owned()),
        },
        TargetPattern {
            package: "a/b".to_owned(),
            scope: PatternScope::Package,
        },
        TargetPattern {
            package: "a/b".to_owned(),
            scope: PatternScope::Descendants,
        },
    ];
    for p in patterns {
        assert_eq!(TargetPattern::parse(&p.format()), Ok(p.clone()));
    }
    assert_eq!(
        TargetPattern::parse("//a/b:c"),
        Ok(TargetPattern {
            package: "a/b".to_owned(),
            scope: PatternScope::SingleTarget("c".to_owned()),
        })
    );
}

#[test]
fn a_target_named_all_parses_as_the_package_scope() {
    // the known grammar ambiguity: `pkg:all` always means the whole package
    assert_eq!(
        TargetPattern::parse("//pkg:all"),
        Ok(TargetPattern {
            package: "pkg".to_owned(),
            scope: PatternScope::Package,
        })
    );
}

#[test]
fn parse_all_reports_every_failure() {
    let inputs = vec![
        "//a:b".to_owned(),
        "bad".to_owned(),
        "//x/...".to_owned(),
        "//y:z:w".to_owned(),
    ];
    let (oks, errs) = razel::target_pattern::parse_all(&inputs);
    assert_eq!(oks.len(), 2);
    assert_eq!(errs.len(), 2);
    assert_eq!(errs[0].kind, ParseErrorKind::MissingPrefix);
    assert_eq!(errs[1].kind, ParseErrorKind::TooManyColons);
    assert_eq!(oks[0].format(), "//a:b");
    assert_eq!(oks[1].format(), "//x/...");
}

#[test]
fn parse_error_equality_follows_fields() {
    let e1 = ParseError {
        kind: ParseErrorKind::MissingPrefix,
        pattern: "x".to_owned(),
    };
    let e2 = ParseError {
        kind: ParseErrorKind::MissingPrefix,
        pattern: "x".to_owned(),
    };
    assert_eq!(e1, e2);
}
