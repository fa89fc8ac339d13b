use repoloc::path::DirPath;
use repoloc::plan::DiscoveredRepo;
use repoloc::plan::build_plans;
use repoloc::plan::plan_dest;
use repoloc::scan::find_repo_roots;
use repoloc::url::parse;

fn dp(parts: &[&str]) -> DirPath {
    DirPath { components: parts.iter().map(|s| s.as_bytes().to_vec()).collect() }
}

fn parts(p: &DirPath) -> Vec<Vec<u8>> {
    p.components.clone()
}

#[test]
fn scanner_finds_repo_and_prunes_nested() {
    let dirs = vec![
        dp(&["work"]),
        dp(&["work", "a"]),
        dp(&["work", "a", ".git"]),
        dp(&["work", "a", "vendor"]),
        dp(&["work", "a", "vendor", "dep"]),
        dp(&["work", "a", "vendor", "dep", ".git"]),
        dp(&["work", "b"]),
    ];
    let roots = find_repo_roots(&dirs);
    assert_eq!(roots.len(), 1);
    assert_eq!(parts(&roots[0]), parts(&dp(&["work", "a"])));
}

#[test]
fn scanner_reports_independent_repos() {
    let dirs = vec![
        dp(&["work"]),
        dp(&["work", "a"]),
        dp(&["work", "a", ".git"]),
        dp(&["work", "b"]),
        dp(&["work", "b", ".git"]),
    ];
    let roots = find_repo_roots(&dirs);
    assert_eq!(roots.len(), 2);
    assert_eq!(parts(&roots[0]), parts(&dp(&["work", "a"])));
    assert_eq!(parts(&roots[1]), parts(&dp(&["work", "b"])));
}

#[test]
fn scanner_without_metadata_reports_nothing() {
    let dirs = vec![dp(&["work"]), dp(&["work", "a"]), dp(&["work", "git"])];
    let roots = find_repo_roots(&dirs);
    assert_eq!(roots.len(), 0);
}

#[test]
fn scanner_reports_duplicate_visit_once() {
    let dirs = vec![dp(&["work", "a", ".git"]), dp(&["work", "a", ".git"])];
    let roots = find_repo_roots(&dirs);
    assert_eq!(roots.len(), 1);
    assert_eq!(parts(&roots[0]), parts(&dp(&["work", "a"])));
}

#[test]
fn scanner_never_nests_roots() {
    let dirs = vec![
        dp(&["w", "outer", ".git"]),
        dp(&["w", "outer", "inner", ".git"]),
        dp(&["w", "outer", "inner", "deeper", ".git"]),
    ];
    let roots = find_repo_roots(&dirs);
    for a in 0..roots.len() {
        for b in 0..roots.len() {
            if a != b {
                let ra = parts(&roots[a]);
                let rb = parts(&roots[b]);
                let nested = ra.len() <= rb.len() && rb[..ra.len()] == ra[..];
                assert!(!nested);
            }
        }
    }
    assert_eq!(roots.len(), 1);
}

#[test]
fn scanner_outermost_wins_whatever_the_order() {
    // The inner repository is visited before the outer one; the outer root
    // still replaces it in the report.
    let dirs = vec![
        dp(&["w", "outer", "inner"]),
        dp(&["w", "outer", "inner", ".git"]),
        dp(&["w", "outer"]),
        dp(&["w", "outer", ".git"]),
    ];
    let roots = find_repo_roots(&dirs);
    assert_eq!(roots.len(), 1);
    assert_eq!(parts(&roots[0]), parts(&dp(&["w", "outer"])));
}

#[test]
fn planner_files_location_under_root() {
    let ws = dp(&["home", "u", "ghq"]);
    let loc = parse(&b"https://example.com/alice/proj.git".to_vec()).unwrap();
    let dest = plan_dest(&ws, &loc);
    assert_eq!(parts(&dest), parts(&dp(&["home", "u", "ghq", "example.com", "alice", "proj"])));
}

#[test]
fn planner_distinct_triples_get_distinct_destinations() {
    let ws = dp(&["home", "u", "ghq"]);
    let a = parse(&b"https://example.com/alice/proj".to_vec()).unwrap();
    let b = parse(&b"https://example.com/bob/proj".to_vec()).unwrap();
    assert_ne!(parts(&plan_dest(&ws, &a)), parts(&plan_dest(&ws, &b)));
}

#[test]
fn planner_same_triple_same_destination() {
    let ws = dp(&["home", "u", "ghq"]);
    let a = parse(&b"git@example.com:alice/proj.git".to_vec()).unwrap();
    let b = parse(&b"https://example.com/alice/proj".to_vec()).unwrap();
    assert_eq!(parts(&plan_dest(&ws, &a)), parts(&plan_dest(&ws, &b)));
}

#[test]
fn build_plans_scenario_tree() {
    let ws = dp(&["home", "u", "ghq"]);
    let repos = vec![DiscoveredRepo {
        root: dp(&["work", "a"]),
        remote: Some(b"https://example.com/alice/proj.git".to_vec()),
    }];
    let plans = build_plans(&ws, &repos);
    assert_eq!(plans.len(), 1);
    assert_eq!(parts(&plans[0].source), parts(&dp(&["work", "a"])));
    assert_eq!(
        parts(&plans[0].destination),
        parts(&dp(&["home", "u", "ghq", "example.com", "alice", "proj"]))
    );
}

#[test]
fn build_plans_excludes_repo_without_remote() {
    let ws = dp(&["home", "u", "ghq"]);
    let repos = vec![DiscoveredRepo { root: dp(&["work", "a"]), remote: None }];
    let plans = build_plans(&ws, &repos);
    assert_eq!(plans.len(), 0);
}

#[test]
fn build_plans_excludes_unparseable_remote() {
    let ws = dp(&["home", "u", "ghq"]);
    let repos = vec![DiscoveredRepo {
        root: dp(&["work", "a"]),
        remote: Some(b"not a url".to_vec()),
    }];
    let plans = build_plans(&ws, &repos);
    assert_eq!(plans.len(), 0);
}

#[test]
fn build_plans_keeps_order_and_skips_in_the_middle() {
    let ws = dp(&["ghq"]);
    let repos = vec![
        DiscoveredRepo {
            root: dp(&["w", "a"]),
            remote: Some(b"https://h.example/o/a".to_vec()),
        },
        DiscoveredRepo { root: dp(&["w", "b"]), remote: None },
        DiscoveredRepo {
            root: dp(&["w", "c"]),
            remote: Some(b"git@h.example:o/c.git".to_vec()),
        },
    ];
    let plans = build_plans(&ws, &repos);
    assert_eq!(plans.len(), 2);
    assert_eq!(parts(&plans[0].source), parts(&dp(&["w", "a"])));
    assert_eq!(parts(&plans[0].destination), parts(&dp(&["ghq", "h.example", "o", "a"])));
    assert_eq!(parts(&plans[1].source), parts(&dp(&["w", "c"])));
    assert_eq!(parts(&plans[1].destination), parts(&dp(&["ghq", "h.example", "o", "c"])));
}
