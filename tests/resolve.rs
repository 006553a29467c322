use rv::graph::{topo_order, GraphNode};
use rv::lockfile::{hash_is_valid, LockField, Lockfile, Platform, RepositoryRef};
use rv::package::{Candidate, Dependency, PackageCandidates, RepositoryDatabase, ResolvedDependency, Source};
use rv::resolver::{Resolution, ResolutionError, Resolver};
use rv::scan::{is_comment_line, is_excluded_name, is_hidden_name, packages_in_lines, packages_to_add, sorted_unique};
use rv::sync::{sync, BuildStep, Library, LibraryEntry};
use rv::version::{Version, VersionRequirement};

fn v(parts: &[u64]) -> Version {
    Version::new(parts.to_vec())
}

fn dep(name: &str, req: VersionRequirement) -> Dependency {
    Dependency::new(name.to_string(), req)
}

fn cand(version: &[u64], repo: &str, deps: Vec<Dependency>) -> Candidate {
    Candidate {
        version: v(version),
        source: Source::Repository { repo_id: repo.to_string() },
        content_hash: "abc123".to_string(),
        dependencies: deps,
        is_binary: false,
        platform: String::new(),
    }
}

fn repo(name: &str, packages: Vec<(&str, Vec<Candidate>)>) -> RepositoryDatabase {
    RepositoryDatabase {
        name: name.to_string(),
        url: format!("https://{}.example", name),
        packages: packages
            .into_iter()
            .map(|(n, c)| PackageCandidates { name: n.to_string(), candidates: c })
            .collect(),
    }
}

fn resolver(repos: Vec<RepositoryDatabase>) -> Resolver {
    Resolver::new(repos, "linux".to_string(), Vec::new(), Vec::new())
}

fn entry<'a>(r: &'a Resolution, name: &str) -> &'a ResolvedDependency {
    r.graph.iter().find(|e| e.name == name).expect("package in resolution")
}

fn caret_two() -> VersionRequirement {
    VersionRequirement::Range(v(&[2]), v(&[3]), false)
}

fn example_repo() -> RepositoryDatabase {
    repo(
        "cran",
        vec![
            ("A", vec![cand(&[1, 2], "cran", vec![dep("B", caret_two())])]),
            ("B", vec![cand(&[2, 1], "cran", vec![]), cand(&[1, 9], "cran", vec![])]),
        ],
    )
}

fn lib_entry(name: &str, version: &[u64], deps: &[&str]) -> LibraryEntry {
    LibraryEntry {
        name: name.to_string(),
        version: v(version),
        content_hash: "abc123".to_string(),
        path: format!("/lib/{}", name),
        dependencies: deps.iter().map(|d| d.to_string()).collect(),
    }
}

fn step_name(s: &BuildStep) -> &str {
    match s {
        BuildStep::Install { name, .. } => name,
        BuildStep::Update { name, .. } => name,
        BuildStep::Remove { name } => name,
    }
}

#[test]
fn version_compare_pads_with_zeros() {
    assert_eq!(v(&[1, 0]).compare(&v(&[1, 0, 0])), 0);
    assert_eq!(v(&[1, 2]).compare(&v(&[1, 10])), -1);
    assert_eq!(v(&[2]).compare(&v(&[1, 9, 9])), 1);
    assert_eq!(v(&[]).compare(&v(&[0, 0])), 0);
}

#[test]
fn requirement_predicates() {
    assert!(VersionRequirement::Exact(v(&[1, 0])).satisfies(&v(&[1])));
    assert!(!VersionRequirement::Exact(v(&[1, 0])).satisfies(&v(&[1, 0, 1])));
    assert!(VersionRequirement::AtLeast(v(&[1, 0])).satisfies(&v(&[1, 2])));
    assert!(!VersionRequirement::AtLeast(v(&[1, 0])).satisfies(&v(&[0, 9])));
    assert!(caret_two().satisfies(&v(&[2, 1])));
    assert!(!caret_two().satisfies(&v(&[3])));
    assert!(!caret_two().satisfies(&v(&[1, 9])));
    assert!(VersionRequirement::Range(v(&[1]), v(&[2]), true).satisfies(&v(&[2, 0])));
    assert!(VersionRequirement::Any.satisfies(&v(&[0])));
    assert!(VersionRequirement::PinnedRef("main".to_string()).satisfies(&v(&[5])));
}

#[test]
fn example_selects_newest_matching_and_installs_dependency_first() {
    let r = resolver(vec![example_repo()]);
    let roots = vec![dep("A", VersionRequirement::AtLeast(v(&[1, 0])))];
    let res = r.resolve(&roots).ok().expect("resolves");
    assert_eq!(res.graph.len(), 2);
    assert_eq!(entry(&res, "A").version.parts, vec![1, 2]);
    assert_eq!(entry(&res, "B").version.parts, vec![2, 1]);
    let plan = sync(&res, &Library { installed: vec![] }, false);
    let names: Vec<&str> = plan.steps.iter().map(step_name).collect();
    assert_eq!(names, vec!["B", "A"]);
    assert!(plan.steps.iter().all(|s| matches!(s, BuildStep::Install { .. })));
}

#[test]
fn conflict_names_root_and_transitive_requirer() {
    let r = resolver(vec![repo(
        "cran",
        vec![
            ("A", vec![cand(&[2, 0], "cran", vec![]), cand(&[1, 0], "cran", vec![])]),
            ("C", vec![cand(&[1, 0], "cran", vec![dep("A", VersionRequirement::AtLeast(v(&[2, 0])))])]),
        ],
    )]);
    let roots = vec![
        dep("A", VersionRequirement::Exact(v(&[1, 0]))),
        dep("C", VersionRequirement::Any),
    ];
    match r.resolve(&roots) {
        Err(ResolutionError::Conflict { package, requirers, requirements }) => {
            assert_eq!(package, "A");
            assert_eq!(requirers, vec!["root".to_string(), "C".to_string()]);
            assert_eq!(requirements.len(), 2);
        }
        _ => panic!("expected a conflict"),
    }
}

#[test]
fn removal_drops_dependent_before_dependency() {
    let res = Resolution { root: vec![], graph: vec![] };
    let library = Library { installed: vec![lib_entry("E", &[1], &[]), lib_entry("D", &[1], &["E"])] };
    let plan = sync(&res, &library, true);
    let names: Vec<&str> = plan.steps.iter().map(step_name).collect();
    assert_eq!(names, vec!["D", "E"]);
    assert!(plan.steps.iter().all(|s| matches!(s, BuildStep::Remove { .. })));
}

#[test]
fn no_prune_leaves_extra_packages() {
    let res = Resolution { root: vec![], graph: vec![] };
    let library = Library { installed: vec![lib_entry("D", &[1], &[])] };
    assert!(sync(&res, &library, false).steps.is_empty());
}

#[test]
fn sync_is_empty_when_library_matches() {
    let r = resolver(vec![example_repo()]);
    let roots = vec![dep("A", VersionRequirement::AtLeast(v(&[1, 0])))];
    let res = r.resolve(&roots).ok().unwrap();
    let library = Library { installed: vec![lib_entry("A", &[1, 2], &["B"]), lib_entry("B", &[2, 1], &[])] };
    assert!(sync(&res, &library, true).steps.is_empty());
}

#[test]
fn sync_updates_changed_version() {
    let r = resolver(vec![example_repo()]);
    let roots = vec![dep("A", VersionRequirement::AtLeast(v(&[1, 0])))];
    let res = r.resolve(&roots).ok().unwrap();
    let library = Library { installed: vec![lib_entry("A", &[1, 2], &["B"]), lib_entry("B", &[1, 9], &[])] };
    let plan = sync(&res, &library, true);
    assert_eq!(plan.steps.len(), 1);
    match &plan.steps[0] {
        BuildStep::Update { name, from, to } => {
            assert_eq!(name, "B");
            assert_eq!(from.parts, vec![1, 9]);
            assert_eq!(to.parts, vec![2, 1]);
        }
        _ => panic!("expected an update"),
    }
}

#[test]
fn resolution_is_acyclic_and_meets_every_requirement() {
    let r = resolver(vec![example_repo()]);
    let roots = vec![dep("A", VersionRequirement::AtLeast(v(&[1, 0])))];
    let res = r.resolve(&roots).ok().unwrap();
    for e in &res.graph {
        for d in &e.dependencies {
            assert!(d.requirement.satisfies(&entry(&res, &d.name).version));
        }
    }
    let nodes: Vec<GraphNode> = res
        .graph
        .iter()
        .map(|e| GraphNode { name: e.name.clone(), deps: e.dependencies.iter().map(|d| d.name.clone()).collect() })
        .collect();
    assert!(topo_order(&nodes).is_some());
}

#[test]
fn resolving_twice_gives_the_same_resolution() {
    let r = resolver(vec![example_repo()]);
    let roots = vec![dep("A", VersionRequirement::AtLeast(v(&[1, 0])))];
    let a = r.resolve(&roots).ok().unwrap();
    let b = r.resolve(&roots).ok().unwrap();
    assert_eq!(a.graph.len(), b.graph.len());
    for (x, y) in a.graph.iter().zip(b.graph.iter()) {
        assert_eq!(x.name, y.name);
        assert_eq!(x.version.parts, y.version.parts);
        assert_eq!(x.content_hash, y.content_hash);
    }
}

#[test]
fn repository_priority_beats_newer_version() {
    let first = repo("first", vec![("A", vec![cand(&[1, 0], "first", vec![])])]);
    let second = repo("second", vec![("A", vec![cand(&[3, 0], "second", vec![])])]);
    let r = resolver(vec![first, second]);
    let res = r.resolve(&vec![dep("A", VersionRequirement::Any)]).ok().unwrap();
    assert_eq!(entry(&res, "A").version.parts, vec![1, 0]);
    match &entry(&res, "A").source {
        Source::Repository { repo_id } => assert_eq!(repo_id, "first"),
        _ => panic!("expected a repository source"),
    }
}

#[test]
fn binary_for_other_platform_is_skipped() {
    let mut bin = cand(&[2, 0], "cran", vec![]);
    bin.is_binary = true;
    bin.platform = "windows".to_string();
    let r = resolver(vec![repo("cran", vec![("A", vec![bin, cand(&[1, 0], "cran", vec![])])])]);
    let res = r.resolve(&vec![dep("A", VersionRequirement::Any)]).ok().unwrap();
    assert_eq!(entry(&res, "A").version.parts, vec![1, 0]);
}

#[test]
fn locked_version_is_kept_unless_forced() {
    let locked = ResolvedDependency::from_candidate(&"B".to_string(), &cand(&[2, 0], "cran", vec![]));
    let repos = vec![example_repo()];
    let r = Resolver::new(repos, "linux".to_string(), vec![locked], vec![]);
    let roots = vec![dep("A", VersionRequirement::AtLeast(v(&[1, 0])))];
    let res = r.resolve(&roots).ok().unwrap();
    assert_eq!(entry(&res, "B").version.parts, vec![2, 0]);
    let locked = ResolvedDependency::from_candidate(&"B".to_string(), &cand(&[2, 0], "cran", vec![]));
    let r = Resolver::new(vec![example_repo()], "linux".to_string(), vec![locked], vec!["B".to_string()]);
    let res = r.resolve(&roots).ok().unwrap();
    assert_eq!(entry(&res, "B").version.parts, vec![2, 1]);
}

#[test]
fn missing_package_is_not_found() {
    let r = resolver(vec![example_repo()]);
    match r.resolve(&vec![dep("Z", VersionRequirement::Any)]) {
        Err(ResolutionError::NotFound { package }) => assert_eq!(package, "Z"),
        _ => panic!("expected not found"),
    }
}

#[test]
fn dependency_cycle_is_reported() {
    let r = resolver(vec![repo(
        "cran",
        vec![
            ("P", vec![cand(&[1], "cran", vec![dep("Q", VersionRequirement::Any)])]),
            ("Q", vec![cand(&[1], "cran", vec![dep("P", VersionRequirement::Any)])]),
        ],
    )]);
    match r.resolve(&vec![dep("P", VersionRequirement::Any)]) {
        Err(ResolutionError::Cycle { packages }) => assert_eq!(packages.len(), 2),
        _ => panic!("expected a cycle"),
    }
}

fn repo_refs() -> Vec<RepositoryRef> {
    vec![RepositoryRef { name: "cran".to_string(), url: "https://cran.example".to_string() }]
}

fn platform() -> Platform {
    Platform { os: "linux".to_string(), arch: "x86_64".to_string(), toolchain_version: "4.4.1".to_string() }
}

#[test]
fn lockfile_round_trip() {
    let r = resolver(vec![example_repo()]);
    let roots = vec![dep("A", VersionRequirement::AtLeast(v(&[1, 0])))];
    let res = r.resolve(&roots).ok().unwrap();
    let lock = Lockfile::save(&res, repo_refs(), platform());
    let back = lock.load().ok().expect("loads");
    assert!(back.root.is_empty());
    assert_eq!(back.graph.len(), res.graph.len());
    for (x, y) in back.graph.iter().zip(res.graph.iter()) {
        assert_eq!(x.name, y.name);
        assert_eq!(x.version.parts, y.version.parts);
        assert_eq!(x.content_hash, y.content_hash);
        assert_eq!(x.dependencies.len(), y.dependencies.len());
    }
}

#[test]
fn lockfile_rejects_bad_hash_and_unknown_repository() {
    let mut e = ResolvedDependency::from_candidate(&"A".to_string(), &cand(&[1], "cran", vec![]));
    e.content_hash = "xyz".to_string();
    let lock = Lockfile { repositories: repo_refs(), platform: platform(), packages: vec![e] };
    match lock.load() {
        Err(err) => {
            assert_eq!(err.index, 0);
            assert!(matches!(err.field, LockField::ContentHash));
        }
        Ok(_) => panic!("expected a corrupt lock"),
    }
    let e = ResolvedDependency::from_candidate(&"A".to_string(), &cand(&[1], "elsewhere", vec![]));
    let lock = Lockfile { repositories: repo_refs(), platform: platform(), packages: vec![e] };
    assert!(matches!(lock.load().err().map(|e| e.field), Some(LockField::Source)));
    let e = ResolvedDependency::from_candidate(&"A".to_string(), &cand(&[], "cran", vec![]));
    let lock = Lockfile { repositories: repo_refs(), platform: platform(), packages: vec![e] };
    assert!(matches!(lock.load().err().map(|e| e.field), Some(LockField::Version)));
    let e = ResolvedDependency::from_candidate(&"A".to_string(), &cand(&[1], "cran", vec![dep("B", VersionRequirement::Any)]));
    let lock = Lockfile { repositories: repo_refs(), platform: platform(), packages: vec![e] };
    assert!(matches!(lock.load().err().map(|e| e.field), Some(LockField::Dependencies)));
}

#[test]
fn hash_validation() {
    assert!(hash_is_valid(&"09afAF".to_string()));
    assert!(!hash_is_valid(&String::new()));
    assert!(!hash_is_valid(&"12g4".to_string()));
}

#[test]
fn hidden_names() {
    assert!(is_hidden_name(".git"));
    assert!(!is_hidden_name("."));
    assert!(!is_hidden_name("src"));
}

#[test]
fn comment_lines() {
    assert!(is_comment_line("   # library(x)"));
    assert!(!is_comment_line("library(x) # note"));
    assert!(!is_comment_line(""));
}

#[test]
fn library_calls_are_found_outside_comments() {
    let lines = vec![
        "library(dplyr)".to_string(),
        "# library(ignored)".to_string(),
        "x <- require('data.table'); library( \"ggplot2\" )".to_string(),
    ];
    let found = packages_in_lines(&lines);
    assert_eq!(found, vec!["dplyr".to_string(), "data.table".to_string(), "ggplot2".to_string()]);
}

#[test]
fn only_missing_packages_are_added() {
    let existing = vec!["pkg1".to_string(), "dplyr".to_string()];
    let wanted = vec!["pkg1".to_string(), "pkg2".to_string(), "pkg3".to_string()];
    assert_eq!(packages_to_add(&existing, &wanted), vec!["pkg2".to_string(), "pkg3".to_string()]);
}

#[test]
fn resolution_entries_are_ordered_by_name() {
    let r = resolver(vec![example_repo()]);
    let roots = vec![dep("B", VersionRequirement::Any), dep("A", VersionRequirement::AtLeast(v(&[1, 0])))];
    let res = r.resolve(&roots).ok().unwrap();
    let names: Vec<&str> = res.graph.iter().map(|e| e.name.as_str()).collect();
    assert_eq!(names, vec!["A", "B"]);
}

#[test]
fn lockfile_rejects_entries_out_of_order() {
    let a = ResolvedDependency::from_candidate(&"A".to_string(), &cand(&[1], "cran", vec![]));
    let b = ResolvedDependency::from_candidate(&"B".to_string(), &cand(&[1], "cran", vec![]));
    let lock = Lockfile { repositories: repo_refs(), platform: platform(), packages: vec![b, a] };
    match lock.load() {
        Err(err) => {
            assert_eq!(err.index, 1);
            assert!(matches!(err.field, LockField::Name));
        }
        Ok(_) => panic!("expected a corrupt lock"),
    }
}

#[test]
fn comment_after_unicode_whitespace() {
    assert!(is_comment_line("\u{00A0}# library(x)"));
    assert!(is_comment_line("\u{3000}#"));
}

#[test]
fn excluded_directory_name() {
    assert!(is_excluded_name("rv"));
    assert!(!is_excluded_name("rvx"));
    assert!(!is_excluded_name("src"));
}

#[test]
fn scanned_names_sorted_without_repeats() {
    let v = vec!["zoo".to_string(), "dplyr".to_string(), "zoo".to_string(), "data.table".to_string()];
    assert_eq!(sorted_unique(&v), vec!["data.table".to_string(), "dplyr".to_string(), "zoo".to_string()]);
}
