use repo_deps::cycles::{add_cycles_from, cycle_entries, find_cycles};
use repo_deps::lint::sanity_check;
use repo_deps::model::{CrateInfo, Dependency, Publish, Repository};
use repo_deps::render::{make_graph, palette_color, GraphType, PALETTE_SIZE};
use repo_deps::resolve::{all_crates, check_unique_names, find_info};

fn path_dep(name: &str) -> Dependency {
    Dependency { name: name.to_string(), has_path: true, from: None }
}

fn registry_dep(name: &str, registry: &str) -> Dependency {
    Dependency { name: name.to_string(), has_path: false, from: Some(registry.to_string()) }
}

fn plain_dep(name: &str) -> Dependency {
    Dependency { name: name.to_string(), has_path: false, from: None }
}

fn krate(name: &str, published_to: Publish, deps: Vec<Dependency>) -> CrateInfo {
    CrateInfo { name: name.to_string(), published_to, deps }
}

fn pkg(name: &str, deps: Vec<Dependency>) -> CrateInfo {
    krate(name, Publish::Default, deps)
}

fn repo(id: &str, crates: Vec<CrateInfo>) -> Repository {
    Repository { id: id.to_string(), crates }
}

fn pair(a: &str, b: &str) -> (String, String) {
    (a.to_string(), b.to_string())
}

fn two_repo_universe() -> Vec<Repository> {
    vec![
        repo("repoA", vec![pkg("x", vec![path_dep("y")])]),
        repo("repoB", vec![pkg("y", vec![registry_dep("x", "custom")])]),
    ]
}

#[test]
fn two_repo_cycle_is_reported() {
    let u = two_repo_universe();
    let cycles = find_cycles(&u);
    // Each repository is a root in turn, so the loop is found from both ends.
    assert_eq!(cycles, vec![vec![(0, 0), (1, 0), (0, 0)], vec![(1, 0), (0, 0), (1, 0)]]);
    let entries = cycle_entries(&u, &cycles[0]);
    assert_eq!(entries, vec![pair("repoA", "x"), pair("repoB", "y"), pair("repoA", "x")]);
    let entries = cycle_entries(&u, &cycles[1]);
    assert_eq!(entries, vec![pair("repoB", "y"), pair("repoA", "x"), pair("repoB", "y")]);
}

#[test]
fn two_repo_graph_draws_both_edges() {
    let u = two_repo_universe();
    let text = make_graph(GraphType::Cluster, &u).unwrap();
    let expected = "digraph G {\n    node [shape=rectangle]\n    subgraph \"cluster_repoA\" {\n        label = \"repoA\";\n        style = filled;\n        \"x\" [color=green];\n    }\n    subgraph \"cluster_repoB\" {\n        label = \"repoB\";\n        style = filled;\n        \"y\" [color=green];\n    }\n    \"x\" -> \"y\" [color=blue];\n    \"y\" -> \"x\" ;\n}\n";
    assert_eq!(text, expected);
}

#[test]
fn unresolved_plain_dependency_gives_nothing() {
    let u = vec![repo("repoA", vec![pkg("x", vec![plain_dep("lib")])])];
    assert!(find_cycles(&u).is_empty());
    let text = make_graph(GraphType::Cluster, &u).unwrap();
    assert!(!text.contains("->"));
    assert!(!text.contains("lib"));
}

#[test]
fn unresolved_path_dependency_is_still_drawn() {
    let u = vec![repo("repoA", vec![pkg("x", vec![path_dep("outside")])])];
    let text = make_graph(GraphType::Cluster, &u).unwrap();
    assert!(text.contains("    \"x\" -> \"outside\" [color=blue];\n"));
}

#[test]
fn edge_policy_by_dependency_kind() {
    let u = vec![repo(
        "r",
        vec![pkg("a", vec![plain_dep("p"), path_dep("q"), registry_dep("s", "reg")])],
    )];
    let text = make_graph(GraphType::Colors, &u).unwrap();
    assert!(!text.contains("\"a\" -> \"p\""));
    assert!(text.contains("    \"a\" -> \"q\" [color=blue];\n"));
    assert!(text.contains("    \"a\" -> \"s\" ;\n"));
}

#[test]
fn duplicate_edges_are_all_drawn() {
    let u = vec![repo("r", vec![pkg("a", vec![path_dep("b"), path_dep("b")])])];
    let text = make_graph(GraphType::Cluster, &u).unwrap();
    assert_eq!(text.matches("\"a\" -> \"b\" [color=blue];").count(), 2);
}

#[test]
fn rendering_twice_is_identical() {
    let u = two_repo_universe();
    assert_eq!(
        make_graph(GraphType::Cluster, &u).unwrap(),
        make_graph(GraphType::Cluster, &u).unwrap()
    );
    assert_eq!(
        make_graph(GraphType::Colors, &u).unwrap(),
        make_graph(GraphType::Colors, &u).unwrap()
    );
}

fn many_repos(n: usize) -> Vec<Repository> {
    (0..n).map(|i| repo(&format!("r{}", i), vec![pkg(&format!("p{}", i), vec![])])).collect()
}

#[test]
fn colored_mode_fits_the_palette() {
    let u = many_repos(PALETTE_SIZE);
    let text = make_graph(GraphType::Colors, &u).unwrap();
    assert!(text.contains("    \"p21\" [style=filled, fillcolor=\"#000000\"];\n"));
}

#[test]
fn colored_mode_beyond_the_palette_fails() {
    let u = many_repos(PALETTE_SIZE + 1);
    let e = make_graph(GraphType::Colors, &u).unwrap_err();
    assert_eq!(e.repositories, 23);
    assert_eq!(e.colors, 22);
    assert!(make_graph(GraphType::Cluster, &u).is_ok());
}

#[test]
fn colored_mode_exact_text() {
    let u = two_repo_universe();
    let text = make_graph(GraphType::Colors, &u).unwrap();
    let expected = "digraph G {\n    node [shape=rectangle]\n    \"x\" [style=filled, fillcolor=\"#e6194b\"];\n    \"y\" [style=filled, fillcolor=\"#3cb44b\"];\n    \"x\" -> \"y\" [color=blue];\n    \"y\" -> \"x\" ;\n}\n";
    assert_eq!(text, expected);
}

#[test]
fn palette_first_and_last() {
    assert_eq!(palette_color(0), "#e6194b");
    assert_eq!(palette_color(10), "#008080");
    assert_eq!(palette_color(21), "#000000");
}

#[test]
fn cluster_styles_follow_publish_policy() {
    let u = vec![repo(
        "r",
        vec![
            krate("n", Publish::Nowhere, vec![]),
            krate("d", Publish::Default, vec![]),
            krate("e", Publish::At(vec!["reg".to_string()]), vec![]),
        ],
    )];
    let text = make_graph(GraphType::Cluster, &u).unwrap();
    assert!(text.contains("        \"n\" [color=blue];\n"));
    assert!(text.contains("        \"d\" [color=green];\n"));
    assert!(text.contains("        \"e\" [];\n"));
}

#[test]
fn empty_universe_renders_empty_graph() {
    let u: Vec<Repository> = vec![];
    assert_eq!(
        make_graph(GraphType::Cluster, &u).unwrap(),
        "digraph G {\n    node [shape=rectangle]\n}\n"
    );
    assert!(find_cycles(&u).is_empty());
    assert!(all_crates(&u).is_empty());
}

#[test]
fn duplicate_names_across_repositories_fail() {
    let u = vec![
        repo("first", vec![pkg("a", vec![])]),
        repo("second", vec![pkg("b", vec![]), pkg("a", vec![])]),
    ];
    let e = check_unique_names(&u).unwrap_err();
    assert_eq!(e.name, "a");
    assert_eq!(e.first_repo, "first");
    assert_eq!(e.second_repo, "second");
    let e = sanity_check(&u).unwrap_err();
    assert_eq!(e.name, "a");
}

#[test]
fn duplicate_names_inside_one_repository_fail() {
    let u = vec![repo("only", vec![pkg("a", vec![]), pkg("a", vec![])])];
    let e = check_unique_names(&u).unwrap_err();
    assert_eq!(e.first_repo, "only");
    assert_eq!(e.second_repo, "only");
}

#[test]
fn unique_names_resolve_to_their_owner() {
    let u = vec![
        repo("first", vec![pkg("a", vec![]), pkg("b", vec![])]),
        repo("second", vec![pkg("c", vec![])]),
    ];
    assert!(check_unique_names(&u).is_ok());
    assert_eq!(find_info(&"a".to_string(), &u), Some((0, 0)));
    assert_eq!(find_info(&"b".to_string(), &u), Some((0, 1)));
    assert_eq!(find_info(&"c".to_string(), &u), Some((1, 0)));
    assert_eq!(find_info(&"d".to_string(), &u), None);
}

#[test]
fn all_crates_in_universe_order() {
    let u = vec![
        repo("first", vec![pkg("a", vec![]), pkg("b", vec![])]),
        repo("empty", vec![]),
        repo("second", vec![pkg("c", vec![])]),
    ];
    assert_eq!(all_crates(&u), vec![(0, 0), (0, 1), (2, 0)]);
}

#[test]
fn acyclic_universe_has_no_cycles() {
    let u = vec![
        repo("a", vec![pkg("a1", vec![path_dep("b1"), path_dep("c1")])]),
        repo("b", vec![pkg("b1", vec![path_dep("c1")])]),
        repo("c", vec![pkg("c1", vec![plain_dep("serde")])]),
    ];
    assert!(find_cycles(&u).is_empty());
    let rep = sanity_check(&u).unwrap();
    assert!(rep.all_lints_passed);
}

#[test]
fn transitive_return_is_found() {
    let u = vec![
        repo("a", vec![pkg("a1", vec![plain_dep("b1")]), pkg("a2", vec![])]),
        repo("b", vec![pkg("b1", vec![plain_dep("c1")])]),
        repo("c", vec![pkg("c1", vec![plain_dep("a2")])]),
    ];
    let cycles = find_cycles(&u);
    assert!(cycles.contains(&vec![(0, 0), (1, 0), (2, 0), (0, 1)]));
    for c in &cycles {
        assert_eq!(c[0].0, c[c.len() - 1].0);
    }
    let rep = sanity_check(&u).unwrap();
    assert!(!rep.all_lints_passed);
    assert_eq!(rep.cycles, cycles);
}

#[test]
fn inner_loop_outside_root_terminates() {
    let u = vec![
        repo("a", vec![pkg("a1", vec![plain_dep("b1")])]),
        repo("b", vec![pkg("b1", vec![plain_dep("b2")]), pkg("b2", vec![plain_dep("b1")])]),
    ];
    assert!(find_cycles(&u).is_empty());
}

#[test]
fn inner_loop_with_exit_to_root() {
    let u = vec![
        repo("a", vec![pkg("a1", vec![plain_dep("b1")])]),
        repo(
            "b",
            vec![pkg("b1", vec![plain_dep("b2")]), pkg("b2", vec![plain_dep("b1"), plain_dep("a1")])],
        ),
    ];
    let cycles = find_cycles(&u);
    assert_eq!(
        cycles,
        vec![vec![(0, 0), (1, 0), (1, 1), (0, 0)], vec![(1, 1), (0, 0), (1, 0)]]
    );
}

#[test]
fn duplicate_dependency_gives_duplicate_cycles() {
    let u = vec![
        repo("a", vec![pkg("x", vec![plain_dep("y"), plain_dep("y")])]),
        repo("b", vec![pkg("y", vec![plain_dep("x")])]),
    ];
    let cycles = find_cycles(&u);
    assert_eq!(
        cycles,
        vec![
            vec![(0, 0), (1, 0), (0, 0)],
            vec![(0, 0), (1, 0), (0, 0)],
            vec![(1, 0), (0, 0), (1, 0)],
            vec![(1, 0), (0, 0), (1, 0)],
        ]
    );
}

#[test]
fn same_repository_dependency_is_no_cycle() {
    let u = vec![repo("a", vec![pkg("x", vec![path_dep("y")]), pkg("y", vec![path_dep("x")])])];
    assert!(find_cycles(&u).is_empty());
}

#[test]
fn search_from_a_given_walk() {
    let u = two_repo_universe();
    let mut parents = vec![(0, 0), (1, 0)];
    let mut cycles = vec![];
    add_cycles_from(0, (1, 0), &mut parents, &u, &mut cycles);
    assert_eq!(parents, vec![(0, 0), (1, 0)]);
    assert_eq!(cycles, vec![vec![(0, 0), (1, 0), (0, 0)]]);
}
