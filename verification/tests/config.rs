use flake_ci::config::{Build, Cache, Config, General};
use flake_ci::pattern::{OutputPath, Pattern};
use flake_ci::platform::{Arch, System, OS};

#[test]
fn test_default_rule_keeps_packages_but_not_formatter() {
    let config = Config::default();
    assert!(config.save_artifact(
        &"packages".to_string(),
        System::x86_linux(),
        &"foo".to_string()
    ));
    assert!(!config.save_artifact(
        &"packages".to_string(),
        System::x86_linux(),
        &"formatter".to_string()
    ));
    assert!(!config.save_artifact(
        &"checks".to_string(),
        System::x86_linux(),
        &"foo".to_string()
    ));
}

#[test]
fn test_empty_rule_list_falls_back_to_default_rule() {
    let mut config = Config::default();
    config.build.artifacts = Vec::new();
    assert!(config.save_artifact(
        &"packages".to_string(),
        System::arm_darwin(),
        &"foo".to_string()
    ));
    assert!(!config.save_artifact(
        &"packages".to_string(),
        System::arm_darwin(),
        &"formatter".to_string()
    ));
}

#[test]
fn test_every_rule_must_accept() {
    let mut config = Config::default();
    config.build.artifacts = vec![
        OutputPath::from_text("*.*.foo").unwrap(),
        OutputPath::from_text("packages.*.*").unwrap(),
    ];
    assert!(config.save_artifact(
        &"packages".to_string(),
        System::x86_linux(),
        &"foo".to_string()
    ));
    assert!(!config.save_artifact(
        &"packages".to_string(),
        System::x86_linux(),
        &"bar".to_string()
    ));
}

#[test]
fn test_default_outputs_and_systems() {
    let config = Config::default();
    let outputs: Vec<&str> = config.build_outputs().iter().map(|s| s.as_str()).collect();
    assert_eq!(
        vec![
            "checks",
            "packages",
            "devShells",
            "homeConfigurations",
            "darwinConfigurations",
            "nixosConfigurations",
            "defaultPackage",
            "devShell",
        ],
        outputs
    );
    assert_eq!(
        vec![System::x86_linux(), System::x86_darwin()],
        config.systems()
    );
    assert_eq!("dist", config.artifact_dir());
    assert!(!config.publish());
    assert!(config.cache().is_none());
    assert!(config.pins().is_empty());
}

#[test]
fn test_systems_unions_cross_product_without_duplicates() {
    let config = Config {
        general: General::default(),
        cache: None,
        build: Build {
            outputs: Vec::new(),
            artifacts: Vec::new(),
            architectures: vec![Arch::X86, Arch::Arm],
            os: vec![OS::Linux],
            systems: vec![System::x86_linux()],
        },
        env: Vec::new(),
    };
    let systems = config.systems();
    assert_eq!(vec![System::x86_linux(), System::arm_linux()], systems);
}

#[test]
fn test_cache_settings_are_exposed() {
    let config = Config {
        general: General::default(),
        cache: Some(Cache {
            cache_name: "mycache".to_string(),
            publish: true,
            pin: vec![OutputPath {
                top_level: Pattern::Specified("packages".to_string()),
                system: Pattern::Any,
                name: Pattern::Any,
            }],
        }),
        build: Build::default(),
        env: Vec::new(),
    };
    assert!(config.publish());
    assert_eq!(Some(&"mycache".to_string()), config.cache());
    assert_eq!(1, config.pins().len());
}
