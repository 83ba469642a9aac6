//! Environment-variable interpolation, identifier parsing and path
//! helpers.

use include_dir::paths::{escape, normalize_path};
use include_dir::resolve::{parse_identifier, resolve_path, take_while, EnvVar, ResolveError};

#[test]
fn resolve_path_with_no_environment_variables() {
    let path = "./file.txt";

    let resolved = resolve_path(path, &Vec::new()).unwrap();

    assert_eq!(resolved.as_str(), path);
}

#[test]
fn simple_environment_variable() {
    let path = "./$VAR";
    let env = vec![EnvVar::new("VAR", "file.txt")];

    let resolved = resolve_path(path, &env).unwrap();

    assert_eq!(resolved.as_str(), "./file.txt");
}

#[test]
fn dont_resolve_recursively() {
    let path = "./$TOP_LEVEL.txt";
    let env = vec![
        EnvVar::new("TOP_LEVEL", "$NESTED"),
        EnvVar::new("NESTED", "Shouldn't resolve recursively"),
    ];

    let resolved = resolve_path(path, &env).unwrap();

    assert_eq!(resolved.as_str(), "./$NESTED.txt");
}

#[test]
fn parse_valid_identifiers() {
    let inputs = vec![
        ("a", "a"),
        ("a_", "a_"),
        ("_asf", "_asf"),
        ("a1", "a1"),
        ("a1_#sd", "a1_"),
    ];

    for (src, expected) in inputs {
        let (got, rest) = parse_identifier(src).unwrap();
        assert_eq!(got.len() + rest.len(), src.len());
        assert_eq!(got, expected);
    }
}

#[test]
fn unknown_environment_variable() {
    let path = "$UNKNOWN";

    let err = resolve_path(path, &Vec::new()).unwrap_err();

    assert_eq!(
        err,
        ResolveError::MissingVariable {
            variable: String::from("UNKNOWN"),
        }
    );
}

#[test]
fn invalid_variables() {
    let inputs = &["$1", "$"];

    for input in inputs {
        let err = resolve_path(input, &Vec::new()).unwrap_err();

        assert_eq!(
            err,
            ResolveError::UnableToParseVariable {
                rest: input.to_string(),
            }
        );
    }
}

#[test]
fn escape_paths() {
    let inputs = vec![
        ("foo/bar/baz", r#"r"foo/bar/baz""#),
        (r"C:\foo\bar\baz", r##"r"C:\foo\bar\baz""##),
    ];

    for (src, should_be) in inputs {
        let got = escape(src);
        assert_eq!(got, should_be);
    }
}

#[test]
fn parse_identifier_rejects_non_identifiers() {
    assert!(parse_identifier("").is_none());
    assert!(parse_identifier("1abc").is_none());
    assert!(parse_identifier("-x").is_none());
}

#[test]
fn take_while_splits_at_first_rejection() {
    let (head, tail) = take_while("abc123", |c| c.is_ascii_alphabetic());
    assert_eq!(head, "abc");
    assert_eq!(tail, "123");

    let (all, empty) = take_while("xyz", |_| true);
    assert_eq!(all, "xyz");
    assert_eq!(empty, "");
}

#[test]
fn first_failure_wins() {
    // The unparsable reference comes before the unknown variable.
    let err = resolve_path("a$!b$MISSING", &Vec::new()).unwrap_err();
    assert_eq!(
        err,
        ResolveError::UnableToParseVariable {
            rest: String::from("$!b$MISSING"),
        }
    );

    // A resolved reference before a failing one still fails.
    let env = vec![EnvVar::new("KNOWN", "k")];
    let err = resolve_path("$KNOWN/$MISSING", &env).unwrap_err();
    assert_eq!(
        err,
        ResolveError::MissingVariable {
            variable: String::from("MISSING"),
        }
    );
}

#[test]
fn normalize_path_strips_root_and_separators() {
    assert_eq!(normalize_path("/home/me", "/home/me/src/lib.rs"), "src/lib.rs");
    assert_eq!(normalize_path("", "assets/logo.png"), "assets/logo.png");
    assert_eq!(normalize_path("C:", "C:\\dir\\file.txt"), "dir/file.txt");
    assert_eq!(normalize_path("root", "root"), "");
}

#[test]
fn first_environment_entry_wins() {
    let env = vec![EnvVar::new("X", "first"), EnvVar::new("X", "second")];
    assert_eq!(resolve_path("$X", &env).unwrap(), "first");
}

#[test]
fn adjacent_and_repeated_references() {
    let env = vec![EnvVar::new("A", "1"), EnvVar::new("B", "2")];
    assert_eq!(resolve_path("$A$B$A", &env).unwrap(), "121");
    assert_eq!(resolve_path("no references here", &env).unwrap(), "no references here");
}
