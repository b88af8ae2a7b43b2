use flake_ci::checks::{check_checks_derivation, find_check_type, get_type_of_check};
use flake_ci::platform::System;
use flake_ci::target::Derivation;

fn mk_check(prefix: &str, name: &str) -> Derivation {
    let input = format!("checks.x86_64-linux.{prefix}-{name}");
    Derivation::from_text(&input).unwrap()
}

fn mk_plural(input: &str) -> String {
    let mut input = input.to_string();
    if input.ends_with('s') || input.ends_with('S') {
        return input;
    }
    input.push('s');
    input
}

#[test]
fn test_check_does_check_thing() {
    let prefix = "pkgs";
    let name = "foo";
    let check = mk_check(prefix, name);
    let drv = Derivation::new("packages".to_owned(), System::x86_linux(), name.to_owned());
    assert!(check_checks_derivation(&check, &drv));
}

#[test]
fn test_check_doesnt_check_thing() {
    let prefix = "pkgs";
    let name = "foo";
    let check = mk_check(prefix, name);
    let drv = Derivation::new(
        "nixosConfigurations".to_owned(),
        System::x86_linux(),
        name.to_owned(),
    );
    assert!(!check_checks_derivation(&check, &drv));
}

#[test]
fn test_get_type_of_check() {
    let cases = [
        ("pkg", "packages"),
        ("package", "packages"),
        ("shell", "devShells"),
        ("devshell", "devShells"),
        ("devShell", "devShells"),
        ("nixos", "nixosConfigurations"),
        ("NixOS", "nixosConfigurations"),
        ("nixosConfiguration", "nixosConfigurations"),
        ("darwin", "darwinConfigurations"),
        ("Darwin", "darwinConfigurations"),
        ("darwinConfiguration", "darwinConfigurations"),
        ("home", "homeConfigurations"),
        ("homeConfiguration", "homeConfigurations"),
        ("system", "systemConfigs"),
        ("systemConfig", "systemConfigs"),
        ("systemConfiguration", "systemConfigs"),
    ];
    for (prefix, expected) in cases {
        let drv = mk_check(prefix, "foo");
        assert_eq!(Some(expected), get_type_of_check(&drv));

        // The match also works when the prefix is plural.
        let plural = mk_plural(prefix);
        let drv = mk_check(&plural, "foo");
        assert_eq!(Some(expected), get_type_of_check(&drv));
    }
}

#[test]
fn test_check_classification_is_case_insensitive() {
    assert_eq!(Some("packages"), find_check_type("pkg"));
    assert_eq!(Some("packages"), find_check_type("PKGS"));
    assert_eq!(Some("packages"), find_check_type("Pkg"));
    assert_eq!(Some("darwinConfigurations"), find_check_type("darwinConfig"));
    assert_eq!(Some("darwinConfigurations"), find_check_type("DARWINCONFIGS"));
}

#[test]
fn test_unknown_prefix_gates_nothing() {
    assert_eq!(None, find_check_type("frobnicate"));
    let drv = mk_check("frobnicate", "foo");
    assert_eq!(None, get_type_of_check(&drv));
    let no_dash = Derivation::new("checks".to_owned(), System::x86_linux(), "plain".to_owned());
    assert_eq!(None, get_type_of_check(&no_dash));
}

#[test]
fn test_check_requires_same_platform_and_name() {
    let check = mk_check("pkgs", "foo");
    let other_platform = Derivation::new(
        "packages".to_owned(),
        System::arm_linux(),
        "foo".to_owned(),
    );
    assert!(!check_checks_derivation(&check, &other_platform));
    let other_name = Derivation::new(
        "packages".to_owned(),
        System::x86_linux(),
        "bar".to_owned(),
    );
    assert!(!check_checks_derivation(&check, &other_name));
    let case_insensitive = Derivation::new(
        "packages".to_owned(),
        System::x86_linux(),
        "FOO".to_owned(),
    );
    assert!(check_checks_derivation(&check, &case_insensitive));
}
