use flake_ci::platform::{parse_arch, parse_os, parse_system, Arch, System, OS};
use flake_ci::target::Derivation;

#[test]
fn test_platform_text_round_trips() {
    let systems = [
        System::x86_linux(),
        System::arm_linux(),
        System::x86_darwin(),
        System::arm_darwin(),
        System::x86_windows(),
        System::arm_windows(),
    ];
    for sys in systems {
        let text = sys.to_text();
        assert_eq!(Some(sys), parse_system(&text));
        assert_eq!(sys, System::from_text(&text).unwrap());
    }
}

#[test]
fn test_platform_canonical_texts() {
    assert_eq!("x86_64-linux", System::x86_linux().to_text());
    assert_eq!("aarch64-darwin", System::arm_darwin().to_text());
    assert_eq!("x86_64-windows", System::x86_windows().to_text());
}

#[test]
fn test_platform_rejects_everything_else() {
    assert_eq!(None, parse_system("sparc-linux"));
    assert_eq!(None, parse_system("x86_64"));
    assert_eq!(None, parse_system("x86_64-linux-gnu"));
    assert_eq!(None, parse_system(""));
    let err = System::from_text("x86_64_linux").unwrap_err();
    assert_eq!("x86_64_linux", err.input);
}

#[test]
fn test_os_and_arch_parsers() {
    assert_eq!(Some(OS::Linux), parse_os("linux"));
    assert_eq!(Some(OS::Darwin), parse_os("darwin"));
    assert_eq!(Some(OS::Windows), parse_os("windows"));
    assert_eq!(None, parse_os("Linux"));
    assert_eq!(Some(Arch::X86), parse_arch("x86_64"));
    assert_eq!(Some(Arch::Arm), parse_arch("aarch64"));
    assert_eq!(None, parse_arch("arm64"));
}

#[test]
fn test_target_text_round_trips() {
    let drv = Derivation::new(
        "checks".to_owned(),
        System::x86_linux(),
        "pkgs-foo".to_owned(),
    );
    let text = drv.to_text();
    assert_eq!(".#checks.x86_64-linux.pkgs-foo", text);
    assert_eq!(drv, Derivation::from_text(&text).unwrap());
    // The `.#` prefix is optional on input.
    assert_eq!(
        drv,
        Derivation::from_text("checks.x86_64-linux.pkgs-foo").unwrap()
    );
}

#[test]
fn test_target_rejects_malformed_text() {
    assert!(Derivation::from_text("checks.x86_64-linux").is_err());
    assert!(Derivation::from_text("checks.nosystem.foo").is_err());
    assert!(Derivation::from_text("a.b.c.d").is_err());
    assert!(Derivation::from_text("").is_err());
}
