use flake_ci::config::Config;
use flake_ci::orchestrator::{plan_system, ResolvedAttr, ResolvedOutput, Status};
use flake_ci::platform::System;
use flake_ci::summary::Summary;

fn fresh_summary() -> Summary {
    Summary::new(
        "/work".to_string(),
        "nix 2.18".to_string(),
        None,
        "abc123".to_string(),
        100,
    )
}

fn resolved_checks_and_packages() -> Vec<ResolvedOutput> {
    vec![
        ResolvedOutput {
            category: "checks".to_string(),
            attrs: Some(vec![ResolvedAttr {
                name: "pkgs-foo".to_string(),
                path: "/drv/check-foo".to_string(),
            }]),
        },
        ResolvedOutput {
            category: "packages".to_string(),
            attrs: Some(vec![ResolvedAttr {
                name: "foo".to_string(),
                path: "/drv/foo".to_string(),
            }]),
        },
    ]
}

#[test]
fn test_check_gates_package_and_failure_blocks_it() {
    let mut summary = fresh_summary();
    let config = Config::default();
    let resolved = resolved_checks_and_packages();
    let system = System::x86_linux();

    let mut run = plan_system(&resolved, system, &mut summary).unwrap();

    // One chain, check first, the gated package second.
    assert_eq!(1, run.chains.len());
    assert_eq!(2, run.chains[0].len());
    assert_eq!(
        ".#checks.x86_64-linux.pkgs-foo",
        run.chains[0][0].target.to_text()
    );
    assert_eq!(".#packages.x86_64-linux.foo", run.chains[0][1].target.to_text());

    // The check fails: the package must be reported blocked, citing the
    // check, and never handed out for building.
    let job = run.next_to_build().unwrap();
    assert_eq!(".#checks.x86_64-linux.pkgs-foo", job.target.to_text());
    let artifact = run.record_outcome(Status::Fail, false, &config, "/work/dist", &mut summary);
    assert!(artifact.is_none());
    assert!(run.next_to_build().is_none());
    assert!(!run.all_succeeded);

    assert_eq!(1, summary.fails.len());
    assert_eq!("checks", summary.fails[0].0);
    assert_eq!(
        vec![(
            ".#checks.x86_64-linux.pkgs-foo".to_string(),
            "`nix log /drv/check-foo`".to_string()
        )],
        summary.fails[0].1
    );
    assert_eq!(1, summary.blocks.len());
    assert_eq!("packages", summary.blocks[0].0);
    assert_eq!(
        vec![(
            ".#packages.x86_64-linux.foo".to_string(),
            ".#checks.x86_64-linux.pkgs-foo".to_string()
        )],
        summary.blocks[0].1
    );
    assert!(summary.successes.is_empty());
    assert!(summary.skips.is_empty());
}

#[test]
fn test_check_success_builds_package_and_saves_artifact() {
    let mut summary = fresh_summary();
    let config = Config::default();
    let resolved = resolved_checks_and_packages();
    let system = System::x86_linux();

    let mut run = plan_system(&resolved, system, &mut summary).unwrap();

    let first = run.next_to_build().unwrap();
    assert_eq!("checks", first.target.output);
    let artifact = run.record_outcome(Status::Success, false, &config, "/work/dist", &mut summary);
    // Checks are not archived under the default rule.
    assert!(artifact.is_none());

    let second = run.next_to_build().unwrap();
    assert_eq!("packages", second.target.output);
    let artifact = run.record_outcome(Status::Success, false, &config, "/work/dist", &mut summary);
    assert_eq!(
        Some("/work/dist/.#packages.x86_64-linux.foo".to_string()),
        artifact
    );

    assert!(run.next_to_build().is_none());
    assert!(run.all_succeeded);
    assert_eq!(2, summary.successes.len());
    assert!(summary.fails.is_empty());
    assert!(summary.blocks.is_empty());
}

#[test]
fn test_dry_run_skips_are_recorded_and_save_nothing() {
    let mut summary = fresh_summary();
    let config = Config::default();
    let resolved = vec![ResolvedOutput {
        category: "packages".to_string(),
        attrs: Some(vec![ResolvedAttr {
            name: "foo".to_string(),
            path: "/drv/foo".to_string(),
        }]),
    }];
    let mut run = plan_system(&resolved, System::x86_linux(), &mut summary).unwrap();

    assert!(run.next_to_build().is_some());
    let artifact = run.record_outcome(Status::Skipped, true, &config, "/work/dist", &mut summary);
    assert!(artifact.is_none());
    assert!(run.all_succeeded);
    assert_eq!(1, summary.skips.len());
    assert_eq!("packages", summary.skips[0].0);
    assert_eq!(
        vec![".#packages.x86_64-linux.foo".to_string()],
        summary.skips[0].1
    );
}

#[test]
fn test_absent_category_is_recorded_as_skipped_output() {
    let mut summary = fresh_summary();
    let resolved = vec![
        ResolvedOutput {
            category: "devShells".to_string(),
            attrs: None,
        },
        ResolvedOutput {
            category: "packages".to_string(),
            attrs: Some(Vec::new()),
        },
    ];
    let run = plan_system(&resolved, System::x86_linux(), &mut summary).unwrap();
    assert!(run.chains.is_empty());
    assert_eq!(vec!["devShells".to_string()], summary.skipped_outputs);
}

#[test]
fn test_ungating_check_builds_as_its_own_chain() {
    let mut summary = fresh_summary();
    let resolved = vec![
        ResolvedOutput {
            category: "checks".to_string(),
            attrs: Some(vec![ResolvedAttr {
                name: "lint".to_string(),
                path: "/drv/lint".to_string(),
            }]),
        },
        ResolvedOutput {
            category: "packages".to_string(),
            attrs: Some(vec![ResolvedAttr {
                name: "foo".to_string(),
                path: "/drv/foo".to_string(),
            }]),
        },
    ];
    let run = plan_system(&resolved, System::x86_linux(), &mut summary).unwrap();
    assert_eq!(2, run.chains.len());
    assert_eq!(1, run.chains[0].len());
    assert_eq!(1, run.chains[1].len());
}

#[test]
fn test_independent_chains_build_in_order() {
    // Two checks each gate one package: two independent chains, each
    // built check-first, and every node built exactly once.
    let mut summary = fresh_summary();
    let config = Config::default();
    let resolved = vec![
        ResolvedOutput {
            category: "checks".to_string(),
            attrs: Some(vec![
                ResolvedAttr {
                    name: "pkgs-foo".to_string(),
                    path: "/drv/check-foo".to_string(),
                },
                ResolvedAttr {
                    name: "pkgs-bar".to_string(),
                    path: "/drv/check-bar".to_string(),
                },
            ]),
        },
        ResolvedOutput {
            category: "packages".to_string(),
            attrs: Some(vec![
                ResolvedAttr {
                    name: "foo".to_string(),
                    path: "/drv/foo".to_string(),
                },
                ResolvedAttr {
                    name: "bar".to_string(),
                    path: "/drv/bar".to_string(),
                },
            ]),
        },
    ];
    let mut run = plan_system(&resolved, System::x86_linux(), &mut summary).unwrap();
    assert_eq!(2, run.chains.len());

    let mut built = Vec::new();
    while let Some(job) = run.next_to_build() {
        built.push(job.target.to_text());
        run.record_outcome(Status::Success, true, &config, "/work/dist", &mut summary);
    }
    assert_eq!(
        vec![
            ".#checks.x86_64-linux.pkgs-foo".to_string(),
            ".#packages.x86_64-linux.foo".to_string(),
            ".#checks.x86_64-linux.pkgs-bar".to_string(),
            ".#packages.x86_64-linux.bar".to_string(),
        ],
        built
    );
    assert!(run.all_succeeded);
}
