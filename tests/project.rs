use changement::bump::VersionBump;
use changement::graph::NodeIndex;
use changement::ledger::ChangelogEntry;
use changement::project::{
    DependencyVersion, Manifest, PackageJson, Project, ProjectError, VersionError, Workspace,
};
use changement::propagate::{propagate, transitive_pass, CycleError};
use changement::version::Version;

fn manifest(directory: &str, name: Option<&str>, dependencies: &[&str]) -> Manifest {
    Manifest {
        directory: directory.to_string(),
        package_json: PackageJson {
            name: name.map(|n| n.to_string()),
            version: Some(Version::new(1, 2, 3)),
            dependencies: dependencies
                .iter()
                .map(|d| (d.to_string(), "workspace:*".to_string()))
                .collect(),
            ..Default::default()
        },
    }
}

fn record(pairs: &[(&str, VersionBump)]) -> ChangelogEntry {
    ChangelogEntry {
        frontmatter: pairs.iter().map(|(n, b)| (n.to_string(), *b)).collect(),
        body: "change".to_string(),
    }
}

fn sorted(mut v: Vec<NodeIndex>) -> Vec<NodeIndex> {
    v.sort();
    v
}

#[test]
fn test_workspace_new() {
    let package_json = PackageJson {
        name: Some("test-package".to_string()),
        version: Some(Version::new(1, 0, 0)),
        workspaces: vec![],
        dependencies: vec![],
        dev_dependencies: vec![],
        peer_dependencies: vec![],
    };
    let workspace = Workspace::new("/test/path", &package_json);
    assert_eq!(workspace.name, Some("test-package".to_string()));
    assert_eq!(workspace.version, Some(Version::new(1, 0, 0)));
    assert!(workspace.dependencies.is_empty());
    assert_eq!(workspace.directory, "/test/path");
}

#[test]
fn test_project_new() {
    let manifests = vec![Manifest {
        directory: "/tmp/project".to_string(),
        package_json: Default::default(),
    }];
    let project = Project::new("/tmp/project", &manifests).unwrap();
    let workspaces = project.get_workspaces();

    assert_eq!(workspaces.len(), 1,);
}

#[test]
fn test_project_multiple_workspaces() {
    let root = Manifest {
        directory: "/tmp/project".to_string(),
        package_json: PackageJson {
            workspaces: vec!["packages/*".into()],
            ..Default::default()
        },
    };
    let mut manifests = vec![root];
    for package in ["a", "b", "c"] {
        manifests.push(Manifest {
            directory: format!("/tmp/project/packages/{}", package),
            package_json: PackageJson {
                name: Some(package.to_string()),
                ..Default::default()
            },
        });
    }
    let project = Project::new("/tmp/project", &manifests).unwrap();
    let workspaces = project.get_workspaces();
    assert_eq!(workspaces.len(), 4);
}

#[test]
fn glob_members_are_dependents_of_their_parent() {
    let mut manifests = vec![Manifest {
        directory: "/repo".to_string(),
        package_json: PackageJson {
            workspaces: vec!["packages/*".into()],
            ..Default::default()
        },
    }];
    for package in ["a", "b", "c"] {
        manifests.push(manifest(&format!("/repo/packages/{}", package), Some(package), &[]));
    }
    manifests.push(manifest("/repo/tools/d", Some("d"), &[]));
    manifests.push(manifest("/elsewhere/packages/e", Some("e"), &[]));
    let project = Project::new("/repo", &manifests).unwrap();
    assert_eq!(project.get_workspaces().len(), 6);
    assert_eq!(sorted(project.dependents(0).into_vec()), vec![1, 2, 3]);
    assert!(project.dependencies(0).into_vec().is_empty());
    for child in 1..4 {
        assert_eq!(project.dependencies(child).into_vec(), vec![0]);
        assert!(project.dependents(child).into_vec().is_empty());
    }
    assert!(project.dependencies(4).into_vec().is_empty());
    assert!(project.dependencies(5).into_vec().is_empty());
}

#[test]
fn invalid_glob_pattern_is_refused() {
    let manifests = vec![
        Manifest {
            directory: "/repo".to_string(),
            package_json: PackageJson {
                workspaces: vec!["packages/[".into()],
                ..Default::default()
            },
        },
        manifest("/repo/packages/a", Some("a"), &[]),
    ];
    match Project::new("/repo", &manifests) {
        Err(ProjectError::InvalidPattern { manifest, pattern }) => {
            assert_eq!(manifest, 0);
            assert_eq!(pattern, "packages/[")
        }
        Ok(_) => panic!("an invalid pattern was accepted"),
    }
}

#[test]
fn declared_dependencies_become_edges() {
    let manifests = vec![
        manifest("/r/a", Some("a"), &[]),
        manifest("/r/b", Some("b"), &["a", "left-pad"]),
    ];
    let project = Project::new("/r", &manifests).unwrap();
    assert_eq!(project.dependencies(1).into_vec(), vec![0]);
    assert_eq!(project.dependents(0).into_vec(), vec![1]);
    assert!(project.dependencies(0).into_vec().is_empty());
    let (index, node) = project.get_workspace("b").unwrap();
    assert_eq!(index, 1);
    assert_eq!(node.data.dependencies.len(), 2);
    assert!(node.data.dependency_version("a").is_some());
    assert!(node.data.dependency_version("c").is_none());
    assert!(project.get_workspace("zzz").is_none());
    assert!(project.workspace(1).is_some());
    assert!(project.workspace(2).is_none());
}

#[test]
fn dependency_constraints() {
    assert!(matches!(
        DependencyVersion::from_str("^1.2"),
        Some(DependencyVersion::VersionReq(_))
    ));
    match DependencyVersion::from_str("workspace:*") {
        Some(DependencyVersion::WorkspaceVersionReq(protocol, _)) => {
            assert_eq!(protocol, "workspace")
        }
        _ => panic!("workspace constraint not read"),
    }
    assert!(DependencyVersion::from_str("workspace:not a range").is_none());
    assert!(DependencyVersion::from_str("not a range").is_none());
    let package_json = PackageJson {
        dependencies: vec![("x".into(), "^1".into()), ("bad".into(), "?!".into())],
        dev_dependencies: vec![("x".into(), "~2.0".into())],
        peer_dependencies: vec![("y".into(), "workspace:^1.0".into())],
        ..Default::default()
    };
    let w = Workspace::new("/w", &package_json);
    let names: Vec<&str> = w.dependencies.iter().map(|(n, _)| n.as_str()).collect();
    assert_eq!(names, vec!["x", "x", "y"]);
}

#[test]
fn patch_on_a_reaches_its_dependent() {
    let manifests = vec![
        manifest("/r/a", Some("A"), &[]),
        manifest("/r/b", Some("B"), &["A"]),
    ];
    let project = Project::new("/r", &manifests).unwrap();
    let bumps = project
        .compute_bumps(&vec![record(&[("A", VersionBump::Patch)])])
        .unwrap();
    assert_eq!(bumps, vec![Some(VersionBump::Patch), Some(VersionBump::Patch)]);
}

#[test]
fn bump_reaches_indirect_dependents_only() {
    let manifests = vec![
        manifest("/r/a", Some("a"), &[]),
        manifest("/r/b", Some("b"), &["a"]),
        manifest("/r/c", Some("c"), &["b"]),
        manifest("/r/d", Some("d"), &[]),
    ];
    let project = Project::new("/r", &manifests).unwrap();
    let records = vec![
        record(&[("a", VersionBump::Minor)]),
        record(&[("c", VersionBump::Major), ("unknown", VersionBump::Major)]),
    ];
    let bumps = project.compute_bumps(&records).unwrap();
    assert_eq!(
        bumps,
        vec![
            Some(VersionBump::Minor),
            Some(VersionBump::Minor),
            Some(VersionBump::Major),
            None
        ]
    );
    let versions = project.new_versions(&bumps).unwrap();
    let texts: Vec<Option<String>> = versions.iter().map(|v| v.as_ref().map(|v| v.to_string())).collect();
    assert_eq!(
        texts,
        vec![
            Some("1.3.0".to_string()),
            Some("1.3.0".to_string()),
            Some("2.0.0".to_string()),
            None
        ]
    );
}

#[test]
fn records_order_does_not_matter() {
    let manifests = vec![manifest("/r/a", Some("a"), &[])];
    let project = Project::new("/r", &manifests).unwrap();
    let minor = record(&[("a", VersionBump::Minor)]);
    let patch = record(&[("a", VersionBump::Patch)]);
    let one = project.compute_bumps(&vec![minor, patch]).unwrap();
    let minor = record(&[("a", VersionBump::Minor)]);
    let patch = record(&[("a", VersionBump::Patch)]);
    let other = project.compute_bumps(&vec![patch, minor]).unwrap();
    assert_eq!(one, vec![Some(VersionBump::Minor)]);
    assert_eq!(other, vec![Some(VersionBump::Minor)]);
}

#[test]
fn dependency_cycle_is_reported() {
    let manifests = vec![
        manifest("/r/a", Some("A"), &["B"]),
        manifest("/r/b", Some("B"), &["A"]),
        manifest("/r/c", Some("C"), &["A"]),
    ];
    let project = Project::new("/r", &manifests).unwrap();
    let result = project.compute_bumps(&vec![record(&[("A", VersionBump::Patch)])]);
    assert_eq!(result, Err(CycleError { nodes: vec![0, 1] }));
}

#[test]
fn settled_bumps_do_not_move_again() {
    let manifests = vec![
        manifest("/r/a", Some("a"), &[]),
        manifest("/r/b", Some("b"), &["a"]),
        manifest("/r/c", Some("c"), &["b", "a"]),
    ];
    let project = Project::new("/r", &manifests).unwrap();
    let bumps = project
        .compute_bumps(&vec![record(&[("a", VersionBump::Patch), ("b", VersionBump::Minor)])])
        .unwrap();
    assert_eq!(
        bumps,
        vec![Some(VersionBump::Patch), Some(VersionBump::Minor), Some(VersionBump::Minor)]
    );
    let mut graph = changement::graph::Graph::new();
    let a = graph.add_node(());
    let b = graph.add_node(());
    graph.add_edge(b, a, changement::graph::Direction::Outgoing);
    let first = transitive_pass(&graph, &vec![Some(VersionBump::Major), None]);
    assert_eq!(first, vec![Some(VersionBump::Major), Some(VersionBump::Major)]);
    assert_eq!(transitive_pass(&graph, &first), first);
    assert_eq!(propagate(&graph, &first), Ok(first.clone()));
}

#[test]
fn version_overflow_is_refused_and_versions_are_set() {
    let mut manifests = vec![manifest("/r/a", Some("a"), &[])];
    manifests[0].package_json.version = Some(Version::new(1, u64::MAX, 0));
    let mut project = Project::new("/r", &manifests).unwrap();
    assert_eq!(
        project.new_versions(&vec![Some(VersionBump::Minor)]),
        Err(VersionError::Overflow { node: 0 })
    );
    let next = project.new_versions(&vec![Some(VersionBump::Major)]).unwrap();
    assert_eq!(next, vec![Some(Version::new(2, 0, 0))]);
    project.set_version(0, Version::new(2, 0, 0));
    assert_eq!(
        project.workspace(0).unwrap().data.version,
        Some(Version::new(2, 0, 0))
    );
}

#[test]
fn member_that_also_declares_its_parent_is_linked_once() {
    let manifests = vec![
        Manifest {
            directory: "/repo".to_string(),
            package_json: PackageJson {
                name: Some("root".to_string()),
                workspaces: vec!["packages/*".into()],
                ..Default::default()
            },
        },
        manifest("/repo/packages/a", Some("a"), &["root"]),
    ];
    let project = Project::new("/repo", &manifests).unwrap();
    assert_eq!(project.dependencies(1).into_vec(), vec![0]);
    assert_eq!(project.dependents(0).into_vec(), vec![1]);
}

#[test]
fn deeply_nested_pattern_is_refused_not_fatal() {
    let mut pattern = String::new();
    for _ in 0..300 {
        pattern.push_str("{a,");
    }
    pattern.push('b');
    for _ in 0..300 {
        pattern.push('}');
    }
    let manifests = vec![
        Manifest {
            directory: "/repo".to_string(),
            package_json: PackageJson {
                workspaces: vec![pattern.clone()],
                ..Default::default()
            },
        },
        manifest("/repo/packages/a", Some("a"), &[]),
    ];
    match Project::new("/repo", &manifests) {
        Err(ProjectError::InvalidPattern { pattern: p, .. }) => assert_eq!(p, pattern),
        Ok(_) => panic!("an uncompilable pattern was accepted"),
    }
}

#[test]
fn workspace_constraints_keep_their_kind() {
    let package_json = PackageJson {
        dependencies: vec![("x".into(), "^1".into())],
        peer_dependencies: vec![("y".into(), "workspace:^1.0".into())],
        ..Default::default()
    };
    let w = Workspace::new("/w", &package_json);
    assert!(matches!(w.dependencies[0].1, DependencyVersion::VersionReq(_)));
    assert!(matches!(
        w.dependencies[1].1,
        DependencyVersion::WorkspaceVersionReq(_, _)
    ));
}

#[test]
fn any_order_of_records_gives_the_same_bumps() {
    let manifests = vec![manifest("/r/a", Some("a"), &[]), manifest("/r/b", Some("b"), &["a"])];
    let project = Project::new("/r", &manifests).unwrap();
    let make = || {
        vec![
            record(&[("a", VersionBump::Patch)]),
            record(&[("b", VersionBump::Major)]),
            record(&[("a", VersionBump::Minor)]),
        ]
    };
    let orders = [[0, 1, 2], [0, 2, 1], [1, 0, 2], [1, 2, 0], [2, 0, 1], [2, 1, 0]];
    for order in orders {
        let mut all: Vec<Option<ChangelogEntry>> = make().into_iter().map(Some).collect();
        let records: Vec<ChangelogEntry> = order.iter().map(|&i| all[i].take().unwrap()).collect();
        assert_eq!(
            project.compute_bumps(&records).unwrap(),
            vec![Some(VersionBump::Minor), Some(VersionBump::Major)]
        );
    }
}

#[test]
fn very_deep_pattern_is_refused_before_compiling() {
    let depth = 300_000;
    let mut pattern = "{a,".repeat(depth);
    pattern.push('b');
    pattern.push_str(&"}".repeat(depth));
    let manifests = vec![
        Manifest {
            directory: "/repo".to_string(),
            package_json: PackageJson {
                workspaces: vec![pattern],
                ..Default::default()
            },
        },
        manifest("/repo/packages/a", Some("a"), &[]),
    ];
    assert!(matches!(
        Project::new("/repo", &manifests),
        Err(ProjectError::InvalidPattern { manifest: 0, .. })
    ));
}

#[test]
fn discover_skips_packages_with_unusable_patterns() {
    let manifests = vec![
        Manifest {
            directory: "/repo".to_string(),
            package_json: PackageJson {
                name: Some("root".to_string()),
                workspaces: vec!["packages/[".into()],
                ..Default::default()
            },
        },
        Manifest {
            directory: "/repo/packages".to_string(),
            package_json: PackageJson {
                name: Some("group".to_string()),
                workspaces: vec!["*".into()],
                ..Default::default()
            },
        },
        manifest("/repo/packages/a", Some("a"), &[]),
    ];
    let (project, kept, skipped) = Project::discover("/repo", manifests);
    assert_eq!(kept.len(), 2);
    assert_eq!(skipped.len(), 1);
    assert_eq!(
        skipped[0],
        ProjectError::InvalidPattern { manifest: 0, pattern: "packages/[".to_string() }
    );
    assert_eq!(project.get_workspaces().len(), 2);
    let (group, _) = project.get_workspace("group").unwrap();
    let (a, _) = project.get_workspace("a").unwrap();
    assert_eq!(project.dependents(group).into_vec(), vec![a]);
    assert!(project.get_workspace("root").is_none());
}
