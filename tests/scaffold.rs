use ai_dlc_cli::catalog::{Directory, Entry, FileEntry};
use ai_dlc_cli::extract::extract_dir;
use ai_dlc_cli::fs_ops::Op;
use ai_dlc_cli::rel_path::RelPath;
use ai_dlc_cli::scaffold::{
    plan_provider, plan_scaffold, resolve_providers, ProviderPlan, ScaffoldMode, ScaffoldPlan,
};
use std::collections::BTreeMap;

fn path(s: &str) -> RelPath {
    if s.is_empty() {
        return RelPath::from_segments(Vec::new());
    }
    RelPath::from_segments(s.split('/').map(|x| x.to_string()).collect())
}

fn segs(p: &RelPath) -> Vec<String> {
    p.segments.clone()
}

fn file(p: &str, contents: &str) -> Entry {
    Entry::File(FileEntry { path: path(p), contents: contents.as_bytes().to_vec() })
}

fn dir(p: &str, entries: Vec<Entry>) -> Entry {
    Entry::Dir(Directory { path: path(p), entries })
}

fn root(entries: Vec<Entry>) -> Directory {
    Directory { path: path(""), entries }
}

fn as_dir(e: Entry) -> Directory {
    match e {
        Entry::Dir(d) => d,
        Entry::File(_) => panic!("not a directory"),
    }
}

#[derive(Debug, Clone, PartialEq)]
enum Node {
    Dir,
    File(Vec<u8>),
}

/// Runs operations on an in-memory tree, as the filesystem would when each
/// one succeeds.
fn run(tree: &mut BTreeMap<Vec<String>, Node>, ops: &[Op]) {
    for op in ops {
        match op {
            Op::CreateDirAll(p) => {
                for n in 1..=p.segments.len() {
                    tree.entry(p.segments[..n].to_vec()).or_insert(Node::Dir);
                }
            }
            Op::WriteFile(p, b) => {
                tree.insert(segs(p), Node::File(b.clone()));
            }
        }
    }
}

fn files(tree: &BTreeMap<Vec<String>, Node>) -> Vec<(String, Vec<u8>)> {
    tree.iter()
        .filter_map(|(k, v)| match v {
            Node::File(b) => Some((k.join("/"), b.clone())),
            Node::Dir => None,
        })
        .collect()
}

fn acme_catalog() -> Directory {
    root(vec![dir("acme", vec![dir("acme/.acme", vec![file("acme/.acme/config.yaml", "x: 1")])])])
}

fn two_provider_catalog() -> Directory {
    root(vec![
        dir(
            "acme",
            vec![
                file("acme/readme.md", "acme readme"),
                dir("acme/.acme", vec![file("acme/.acme/config.yaml", "x: 1")]),
                dir("acme/docs", vec![dir("acme/docs/deep", vec![file("acme/docs/deep/a.txt", "A")])]),
            ],
        ),
        file("notes.txt", "top-level file"),
        dir("zeta", vec![dir("zeta/.zeta", vec![file("zeta/.zeta/config.yaml", "z: 2")])]),
    ])
}

fn extract_ops_of(plan: ProviderPlan) -> Vec<Op> {
    match plan {
        ProviderPlan::Extract(ops) => ops,
        ProviderPlan::NotFound => panic!("provider not found"),
        ProviderPlan::HiddenDirMissing(h) => panic!("missing hidden dir {}", h),
    }
}

#[test]
fn hidden_provider_scenario() {
    let catalog = acme_catalog();
    let plan = plan_scaffold(&catalog, false, vec!["acme".to_string()], ScaffoldMode::HiddenDir);
    let providers = match plan {
        ScaffoldPlan::Providers(v) => v,
        ScaffoldPlan::NothingSelected => panic!("nothing selected"),
    };
    assert_eq!(providers.len(), 1);
    assert_eq!(providers[0].0, "acme");
    let ops = match &providers[0].1 {
        ProviderPlan::Extract(ops) => ops,
        _ => panic!("expected an extraction"),
    };
    let mut tree = BTreeMap::new();
    run(&mut tree, ops);
    assert_eq!(files(&tree), vec![("config.yaml".to_string(), b"x: 1".to_vec())]);
    assert_eq!(tree.get(&vec![".acme".to_string()]), None);
}

#[test]
fn hidden_provider_operations_in_order() {
    let catalog = acme_catalog();
    let ops = extract_ops_of(plan_provider(&catalog, &"acme".to_string(), &ScaffoldMode::HiddenDir));
    assert_eq!(ops.len(), 3);
    match &ops[0] {
        Op::CreateDirAll(p) => assert_eq!(segs(p), Vec::<String>::new()),
        _ => panic!("expected a directory first"),
    }
    match &ops[1] {
        Op::CreateDirAll(p) => assert_eq!(segs(p), Vec::<String>::new()),
        _ => panic!("expected the file's directory"),
    }
    match &ops[2] {
        Op::WriteFile(p, b) => {
            assert_eq!(segs(p), vec!["config.yaml"]);
            assert_eq!(b, &b"x: 1".to_vec());
        }
        _ => panic!("expected a write"),
    }
}

#[test]
fn hidden_dir_subdirectories_keep_their_structure() {
    let catalog = root(vec![dir(
        "acme",
        vec![
            file("acme/readme.md", "not extracted"),
            dir(
                "acme/.acme",
                vec![dir("acme/.acme/rules", vec![file("acme/.acme/rules/r.md", "R")])],
            ),
        ],
    )]);
    let ops = extract_ops_of(plan_provider(&catalog, &"acme".to_string(), &ScaffoldMode::HiddenDir));
    let mut tree = BTreeMap::new();
    run(&mut tree, &ops);
    assert_eq!(files(&tree), vec![("rules/r.md".to_string(), b"R".to_vec())]);
    assert_eq!(tree.get(&vec!["rules".to_string()]), Some(&Node::Dir));
}

#[test]
fn whole_provider_round_trip() {
    let catalog = two_provider_catalog();
    let ops =
        extract_ops_of(plan_provider(&catalog, &"acme".to_string(), &ScaffoldMode::WholeProvider));
    let mut tree = BTreeMap::new();
    run(&mut tree, &ops);
    assert_eq!(
        files(&tree),
        vec![
            ("templates/acme/.acme/config.yaml".to_string(), b"x: 1".to_vec()),
            ("templates/acme/docs/deep/a.txt".to_string(), b"A".to_vec()),
            ("templates/acme/readme.md".to_string(), b"acme readme".to_vec()),
        ]
    );
    assert_eq!(tree.get(&vec!["templates".to_string()]), Some(&Node::Dir));
    assert_eq!(
        tree.get(&vec!["templates".to_string(), "acme".to_string(), "docs".to_string()]),
        Some(&Node::Dir)
    );
}

#[test]
fn extraction_twice_equals_once() {
    let catalog = two_provider_catalog();
    let ops =
        extract_ops_of(plan_provider(&catalog, &"acme".to_string(), &ScaffoldMode::WholeProvider));
    let mut once = BTreeMap::new();
    once.insert(vec!["other".to_string()], Node::File(b"keep".to_vec()));
    run(&mut once, &ops);
    let mut twice = once.clone();
    run(&mut twice, &ops);
    assert_eq!(once, twice);
    assert_eq!(once.get(&vec!["other".to_string()]), Some(&Node::File(b"keep".to_vec())));
}

#[test]
fn extraction_overwrites_existing_file() {
    let catalog = acme_catalog();
    let ops = extract_ops_of(plan_provider(&catalog, &"acme".to_string(), &ScaffoldMode::HiddenDir));
    let mut tree = BTreeMap::new();
    tree.insert(vec!["src".to_string()], Node::Dir);
    tree.insert(vec!["config.yaml".to_string()], Node::File(b"old".to_vec()));
    tree.insert(vec!["other.txt".to_string()], Node::File(b"mine".to_vec()));
    run(&mut tree, &ops);
    assert_eq!(
        files(&tree),
        vec![
            ("config.yaml".to_string(), b"x: 1".to_vec()),
            ("other.txt".to_string(), b"mine".to_vec()),
        ]
    );
    assert_eq!(tree.get(&vec!["src".to_string()]), Some(&Node::Dir));
}

#[test]
fn missing_provider_is_not_found() {
    let catalog = two_provider_catalog();
    let plan = plan_provider(&catalog, &"nobody".to_string(), &ScaffoldMode::HiddenDir);
    assert!(matches!(plan, ProviderPlan::NotFound));
    let plan = plan_provider(&catalog, &"nobody".to_string(), &ScaffoldMode::WholeProvider);
    assert!(matches!(plan, ProviderPlan::NotFound));
}

#[test]
fn provider_name_matches_case_sensitively() {
    let catalog = acme_catalog();
    let plan = plan_provider(&catalog, &"Acme".to_string(), &ScaffoldMode::HiddenDir);
    assert!(matches!(plan, ProviderPlan::NotFound));
}

#[test]
fn file_path_is_not_a_provider() {
    let catalog = two_provider_catalog();
    let plan = plan_provider(&catalog, &"notes.txt".to_string(), &ScaffoldMode::WholeProvider);
    assert!(matches!(plan, ProviderPlan::NotFound));
}

#[test]
fn missing_hidden_dir_is_reported_with_its_name() {
    let catalog = root(vec![dir("acme", vec![file("acme/readme.md", "r")])]);
    let plan = plan_provider(&catalog, &"acme".to_string(), &ScaffoldMode::HiddenDir);
    match plan {
        ProviderPlan::HiddenDirMissing(h) => assert_eq!(h, ".acme"),
        _ => panic!("expected a missing hidden directory"),
    }
}

#[test]
fn hidden_dir_of_another_provider_does_not_count() {
    let catalog = root(vec![dir("acme", vec![dir("acme/.zeta", vec![])])]);
    let plan = plan_provider(&catalog, &"acme".to_string(), &ScaffoldMode::HiddenDir);
    assert!(matches!(plan, ProviderPlan::HiddenDirMissing(_)));
}

#[test]
fn empty_selection_plans_nothing() {
    let catalog = two_provider_catalog();
    let plan = plan_scaffold(&catalog, false, Vec::new(), ScaffoldMode::HiddenDir);
    assert!(matches!(plan, ScaffoldPlan::NothingSelected));
    assert!(resolve_providers(&catalog, false, Vec::new()).is_none());
}

#[test]
fn all_resolves_to_top_level_names() {
    let catalog = two_provider_catalog();
    let names = resolve_providers(&catalog, true, Vec::new()).unwrap();
    assert_eq!(names, vec!["acme".to_string(), "zeta".to_string()]);
}

#[test]
fn all_takes_precedence_over_explicit_names() {
    let catalog = two_provider_catalog();
    let names = resolve_providers(&catalog, true, vec!["nobody".to_string()]).unwrap();
    assert_eq!(names, vec!["acme".to_string(), "zeta".to_string()]);
}

#[test]
fn explicit_names_kept_in_order_with_duplicates() {
    let catalog = two_provider_catalog();
    let given = vec!["zeta".to_string(), "acme".to_string(), "zeta".to_string()];
    let names = resolve_providers(&catalog, false, given.clone()).unwrap();
    assert_eq!(names, given);
}

#[test]
fn all_providers_write_disjoint_trees() {
    let catalog = two_provider_catalog();
    let plan = plan_scaffold(&catalog, true, Vec::new(), ScaffoldMode::WholeProvider);
    let providers = match plan {
        ScaffoldPlan::Providers(v) => v,
        ScaffoldPlan::NothingSelected => panic!("nothing selected"),
    };
    assert_eq!(providers.len(), 2);
    let mut seen: Vec<String> = Vec::new();
    for (name, plan) in providers {
        let mut tree = BTreeMap::new();
        run(&mut tree, &extract_ops_of(plan));
        for (p, _) in files(&tree) {
            assert!(p.starts_with(&format!("templates/{}/", name)));
            assert!(!seen.contains(&p));
            seen.push(p);
        }
    }
    assert_eq!(seen.len(), 4);
}

#[test]
fn scaffold_plan_keeps_missing_providers_and_goes_on() {
    let catalog = two_provider_catalog();
    let plan = plan_scaffold(
        &catalog,
        false,
        vec!["nobody".to_string(), "zeta".to_string()],
        ScaffoldMode::HiddenDir,
    );
    let providers = match plan {
        ScaffoldPlan::Providers(v) => v,
        ScaffoldPlan::NothingSelected => panic!("nothing selected"),
    };
    assert_eq!(providers.len(), 2);
    assert_eq!(providers[0].0, "nobody");
    assert!(matches!(providers[0].1, ProviderPlan::NotFound));
    assert_eq!(providers[1].0, "zeta");
    let ops = match &providers[1].1 {
        ProviderPlan::Extract(ops) => ops,
        _ => panic!("expected an extraction"),
    };
    let mut tree = BTreeMap::new();
    run(&mut tree, ops);
    assert_eq!(files(&tree), vec![("config.yaml".to_string(), b"z: 2".to_vec())]);
}

#[test]
fn strip_prefix_falls_back_to_full_path() {
    let d = as_dir(dir("acme", vec![file("acme/a.txt", "A")]));
    let ops = extract_dir(&d, &path("out"), &path("other"));
    let mut tree = BTreeMap::new();
    run(&mut tree, &ops);
    assert_eq!(files(&tree), vec![("out/acme/a.txt".to_string(), b"A".to_vec())]);
}

#[test]
fn strip_prefix_is_by_whole_segments() {
    let d = as_dir(dir("acme2", vec![file("acme2/a.txt", "A")]));
    let ops = extract_dir(&d, &path(""), &path("acme"));
    let mut tree = BTreeMap::new();
    run(&mut tree, &ops);
    assert_eq!(files(&tree), vec![("acme2/a.txt".to_string(), b"A".to_vec())]);
}

#[test]
fn empty_directory_is_created() {
    let d = as_dir(dir("acme", vec![dir("acme/empty", vec![])]));
    let ops = extract_dir(&d, &path("t"), &path(""));
    let mut tree = BTreeMap::new();
    run(&mut tree, &ops);
    assert!(files(&tree).is_empty());
    assert_eq!(
        tree.get(&vec!["t".to_string(), "acme".to_string(), "empty".to_string()]),
        Some(&Node::Dir)
    );
}

#[test]
fn nested_lookup_by_full_path() {
    let catalog = two_provider_catalog();
    let d = catalog.get_dir("acme/docs/deep").unwrap();
    assert_eq!(d.path.to_path_string(), "acme/docs/deep");
    assert!(catalog.get_dir("docs").is_none());
    assert!(catalog.get_dir("acme/readme.md").is_none());
    assert!(catalog.get_dir("").is_none());
}

#[test]
fn child_lookup_searches_immediate_children_only() {
    let catalog = two_provider_catalog();
    let acme = catalog.get_dir("acme").unwrap();
    let docs = acme.find_child_dir("docs").unwrap();
    assert_eq!(docs.path.to_path_string(), "acme/docs");
    assert!(acme.find_child_dir("deep").is_none());
    assert!(acme.find_child_dir("readme.md").is_none());
}

#[test]
fn top_level_names_skip_files() {
    let catalog = two_provider_catalog();
    assert_eq!(catalog.top_level_names(), vec!["acme".to_string(), "zeta".to_string()]);
}

#[test]
fn well_formedness_check() {
    assert!(two_provider_catalog().is_well_formed());
    let bad = root(vec![dir("acme", vec![file("other/a.txt", "A")])]);
    assert!(!bad.is_well_formed());
    let too_deep = root(vec![dir("acme", vec![file("acme/x/a.txt", "A")])]);
    assert!(!too_deep.is_well_formed());
}

#[test]
fn rel_path_operations() {
    let p = path("a/b/c");
    assert_eq!(p.len(), 3);
    assert_eq!(segs(&p.strip_prefix(&path("a")).unwrap()), vec!["b", "c"]);
    assert!(p.strip_prefix(&path("b")).is_none());
    assert!(p.strip_prefix(&path("a/b/c/d")).is_none());
    assert_eq!(segs(&p.strip_prefix_or_keep(&path("x"))), vec!["a", "b", "c"]);
    assert_eq!(segs(&p.strip_prefix_or_keep(&path("a/b/c"))), Vec::<String>::new());
    assert_eq!(segs(&path("x").join(&p)), vec!["x", "a", "b", "c"]);
    assert_eq!(segs(&p.parent()), vec!["a", "b"]);
    assert_eq!(segs(&path("").parent()), Vec::<String>::new());
    assert_eq!(p.file_name().unwrap(), "c");
    assert!(path("").file_name().is_none());
    assert_eq!(p.to_path_string(), "a/b/c");
    assert_eq!(path("").to_path_string(), "");
    assert!(p.starts_with(&path("a/b")));
    assert!(!p.starts_with(&path("a/c")));
    assert_eq!(segs(&p.suffix(1)), vec!["b", "c"]);
    assert_eq!(segs(&p.copy()), vec!["a", "b", "c"]);
    assert_eq!(segs(&RelPath::root()), Vec::<String>::new());
}
