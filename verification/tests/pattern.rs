use flake_ci::pattern::{parse_name_pattern, parse_system_pattern, OutputPath, Pattern};
use flake_ci::platform::System;

#[test]
fn test_parse_any_pattern() {
    let input = "*";
    let expected = Pattern::Any;
    let actual = parse_name_pattern(input).unwrap();
    assert_eq!(expected, actual);
}

#[test]
fn test_parse_not_pattern() {
    let input = "!formatter";
    let expected = Pattern::Not("formatter".to_string());
    let actual = parse_name_pattern(input).unwrap();
    assert_eq!(expected, actual);
}

#[test]
fn test_parse_pattern() {
    let input = "packages";
    let expected = Pattern::Specified("packages".to_string());
    let actual = parse_name_pattern(input).unwrap();
    assert_eq!(expected, actual);
}

#[test]
fn test_parse_output_path() {
    let input = "packages.*.!formatter";
    let expected = OutputPath {
        top_level: Pattern::Specified("packages".to_string()),
        system: Pattern::Any,
        name: Pattern::Not("formatter".to_string()),
    };
    let actual = OutputPath::from_text(input).unwrap();
    assert_eq!(expected, actual);
}

#[test]
fn test_parse_system_patterns() {
    assert_eq!(Pattern::Any, parse_system_pattern("*").unwrap());
    assert_eq!(
        Pattern::Specified(System::x86_linux()),
        parse_system_pattern("x86_64-linux").unwrap()
    );
    assert_eq!(
        Pattern::Not(System::arm_darwin()),
        parse_system_pattern("!aarch64-darwin").unwrap()
    );
    assert!(parse_system_pattern("riscv64-linux").is_none());
}

#[test]
fn test_parse_rejects_malformed_patterns() {
    assert!(parse_name_pattern("").is_none());
    assert!(parse_name_pattern("!").is_none());
    assert!(parse_name_pattern("*extra").is_none());
    assert!(parse_name_pattern("two words").is_none());
    assert!(OutputPath::from_text("packages").is_err());
    assert!(OutputPath::from_text("packages.*").is_err());
    assert!(OutputPath::from_text("packages.*.a.b").is_err());
    assert!(OutputPath::from_text("packages.notasystem.foo").is_err());
    let err = OutputPath::from_text("packages.*.!").unwrap_err();
    assert_eq!("packages.*.!", err.input);
}

#[test]
fn test_pattern_matches() {
    let any: Pattern<String> = Pattern::Any;
    assert!(any.matches(&"anything".to_string()));
    let spec = Pattern::Specified("foo".to_string());
    assert!(spec.matches(&"foo".to_string()));
    assert!(!spec.matches(&"bar".to_string()));
    let not = Pattern::Not("foo".to_string());
    assert!(!not.matches(&"foo".to_string()));
    assert!(not.matches(&"bar".to_string()));

    let sys_any: Pattern<System> = Pattern::Any;
    assert!(sys_any.matches(&System::arm_linux()));
    let sys_spec = Pattern::Specified(System::x86_linux());
    assert!(sys_spec.matches(&System::x86_linux()));
    assert!(!sys_spec.matches(&System::arm_linux()));
    let sys_not = Pattern::Not(System::x86_linux());
    assert!(!sys_not.matches(&System::x86_linux()));
    assert!(sys_not.matches(&System::x86_darwin()));
}

#[test]
fn test_output_path_matches_conjunctively() {
    let rule = OutputPath::from_text("packages.*.!formatter").unwrap();
    assert!(rule.matches(
        &"packages".to_string(),
        System::x86_linux(),
        &"foo".to_string()
    ));
    assert!(!rule.matches(
        &"packages".to_string(),
        System::x86_linux(),
        &"formatter".to_string()
    ));
    assert!(!rule.matches(
        &"checks".to_string(),
        System::x86_linux(),
        &"foo".to_string()
    ));
}
