use flake_ci::summary::Summary;

fn fresh() -> Summary {
    Summary::new(
        "/work".to_string(),
        "nix 2.18".to_string(),
        Some("cachix 1.7".to_string()),
        "abc123 (dirty)".to_string(),
        80,
    )
}

#[test]
fn test_new_summary_is_empty() {
    let s = fresh();
    assert_eq!("/work", s.cwd);
    assert_eq!("nix 2.18", s.nix_version);
    assert_eq!(Some("cachix 1.7".to_string()), s.cachix_version);
    assert_eq!("abc123 (dirty)", s.git_revision);
    assert_eq!(80, s.width);
    assert!(s.skipped_outputs.is_empty());
    assert!(s.successes.is_empty());
    assert!(s.fails.is_empty());
    assert!(s.skips.is_empty());
    assert!(s.blocks.is_empty());
}

#[test]
fn test_registrations_group_by_category() {
    let mut s = fresh();
    s.skip_output("devShells");
    s.register_success("packages", "a".to_string(), None);
    s.register_success("packages", "b".to_string(), Some("/dist/b".to_string()));
    s.register_success("checks", "c".to_string(), None);
    s.register_fail("packages", "d".to_string(), "`nix log /drv/d`".to_string());
    s.register_skip("packages", "e".to_string());
    s.register_blocked("packages", "f".to_string(), "d".to_string());

    assert_eq!(vec!["devShells".to_string()], s.skipped_outputs);
    assert_eq!(2, s.successes.len());
    assert_eq!("packages", s.successes[0].0);
    assert_eq!(
        vec![
            ("a".to_string(), None),
            ("b".to_string(), Some("/dist/b".to_string()))
        ],
        s.successes[0].1
    );
    assert_eq!("checks", s.successes[1].0);
    assert_eq!(
        vec![("d".to_string(), "`nix log /drv/d`".to_string())],
        s.fails[0].1
    );
    assert_eq!(vec!["e".to_string()], s.skips[0].1);
    assert_eq!(
        vec![("f".to_string(), "d".to_string())],
        s.blocks[0].1
    );
}
