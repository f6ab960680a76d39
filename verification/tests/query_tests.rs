use nxalyzer::entity::{Entity, EntityType, ImportInfo};
use nxalyzer::graph::DependencyGraph;
use nxalyzer::table::EntityTable;

fn entity(name: &str, kind: EntityType, file: &str, targets: Vec<(&str, &str)>) -> Entity {
    let deps = targets
        .into_iter()
        .map(|(n, p)| ImportInfo::new(n.to_string(), p.to_string()))
        .collect();
    Entity::new(name.to_string(), kind, file.to_string(), deps)
}

fn graph_of(entities: Vec<Entity>) -> DependencyGraph {
    let mut table = EntityTable::new();
    for e in entities {
        table.insert(e);
    }
    DependencyGraph::from_entities(&table)
}

fn idx(g: &DependencyGraph, name: &str) -> usize {
    g.nodes.iter().position(|n| n.name == name).unwrap()
}

#[test]
fn test_find_path_prefers_direct_edge() {
    // A -> B -> C -> D, and A -> D directly
    let g = graph_of(vec![
        entity("A", EntityType::Function, "/s/a.ts", vec![("B", "/s/b.ts"), ("D", "/s/d.ts")]),
        entity("B", EntityType::Function, "/s/b.ts", vec![("C", "/s/c.ts")]),
        entity("C", EntityType::Function, "/s/c.ts", vec![("D", "/s/d.ts")]),
        entity("D", EntityType::Function, "/s/d.ts", vec![]),
    ]);
    let a = idx(&g, "A");
    let d = idx(&g, "D");
    let p = g.find_path(a, d).unwrap();
    assert_eq!(p, vec![a, d]);
}

#[test]
fn test_find_path_none_when_unreachable() {
    let g = graph_of(vec![
        entity("A", EntityType::Function, "/s/a.ts", vec![]),
        entity("B", EntityType::Function, "/s/b.ts", vec![]),
    ]);
    assert!(g.find_path(idx(&g, "A"), idx(&g, "B")).is_none());
}

#[test]
fn test_find_all_paths_truncates_at_budget() {
    // five simple chains from X to Y: the direct edge and four detours
    let g = graph_of(vec![
        entity(
            "X",
            EntityType::Function,
            "/s/x.ts",
            vec![
                ("Y", "/s/y.ts"),
                ("M1", "/s/m1.ts"),
                ("M2", "/s/m2.ts"),
                ("M3", "/s/m3.ts"),
                ("M4", "/s/m4.ts"),
            ],
        ),
        entity("M1", EntityType::Function, "/s/m1.ts", vec![("Y", "/s/y.ts")]),
        entity("M2", EntityType::Function, "/s/m2.ts", vec![("Y", "/s/y.ts")]),
        entity("M3", EntityType::Function, "/s/m3.ts", vec![("Y", "/s/y.ts")]),
        entity("M4", EntityType::Function, "/s/m4.ts", vec![("Y", "/s/y.ts")]),
        entity("Y", EntityType::Function, "/s/y.ts", vec![]),
    ]);
    let x = idx(&g, "X");
    let y = idx(&g, "Y");

    let (paths, truncated) = g.find_all_paths(x, y, 3, 10);
    assert_eq!(paths.len(), 3);
    assert!(truncated);

    let (short_paths, short_truncated) = g.find_all_paths(x, y, 100, 1);
    assert_eq!(short_paths.len(), 1);
    assert_eq!(short_paths[0], vec![x, y]);
    assert!(!short_truncated);

    let (all_paths, all_truncated) = g.find_all_paths(x, y, 100, 10);
    assert_eq!(all_paths.len(), 5);
    assert!(!all_truncated);
}

#[test]
fn test_cycle_reported_once() {
    // A -> B -> C -> A
    let g = graph_of(vec![
        entity("A", EntityType::Function, "/s/a.ts", vec![("B", "/s/b.ts")]),
        entity("B", EntityType::Function, "/s/b.ts", vec![("C", "/s/c.ts")]),
        entity("C", EntityType::Function, "/s/c.ts", vec![("A", "/s/a.ts")]),
    ]);
    let (cycles, truncated) = g.find_cycles(10, 10);
    assert_eq!(cycles.len(), 1);
    assert_eq!(cycles[0].len(), 3);
    assert!(!truncated);
    // the reported rotation starts at the smallest node position
    assert!(cycles[0][1] > cycles[0][0] && cycles[0][2] > cycles[0][0]);
}

#[test]
fn test_cycles_respect_budget() {
    // two separate two-node cycles
    let g = graph_of(vec![
        entity("A", EntityType::Function, "/s/a.ts", vec![("B", "/s/b.ts")]),
        entity("B", EntityType::Function, "/s/b.ts", vec![("A", "/s/a.ts")]),
        entity("C", EntityType::Function, "/s/c.ts", vec![("D", "/s/d.ts")]),
        entity("D", EntityType::Function, "/s/d.ts", vec![("C", "/s/c.ts")]),
    ]);
    let (cycles, truncated) = g.find_cycles(1, 10);
    assert_eq!(cycles.len(), 1);
    assert!(truncated);

    let (all, not_truncated) = g.find_cycles(10, 10);
    assert_eq!(all.len(), 2);
    assert!(!not_truncated);
}

#[test]
fn test_rank_breaks_ties_by_name() {
    let g = graph_of(vec![
        entity("beta", EntityType::Service, "/s/beta.ts", vec![]),
        entity("alpha", EntityType::Service, "/s/alpha.ts", vec![]),
        entity(
            "gamma",
            EntityType::Service,
            "/s/gamma.ts",
            vec![("alpha", "/s/alpha.ts"), ("beta", "/s/beta.ts")],
        ),
    ]);
    let ranked = g.rank(None);
    assert_eq!(ranked.len(), 3);
    assert_eq!(ranked[0].0, 0);
    assert_eq!(ranked[0].1.name, "alpha");
    assert_eq!(ranked[1].0, 0);
    assert_eq!(ranked[1].1.name, "beta");
    assert_eq!(ranked[2].0, 2);
    assert_eq!(ranked[2].1.name, "gamma");
}

#[test]
fn test_rank_filter_limits_nodes_and_degrees() {
    let g = graph_of(vec![
        entity(
            "Comp",
            EntityType::Component,
            "/s/comp.ts",
            vec![("Svc", "/s/svc.ts"), ("Other", "/s/other.ts")],
        ),
        entity("Svc", EntityType::Service, "/s/svc.ts", vec![]),
        entity("Other", EntityType::Component, "/s/other.ts", vec![]),
    ]);
    // restricted to components, the edge into the service does not count
    let ranked = g.rank(Some(EntityType::Component));
    assert_eq!(ranked.len(), 2);
    assert_eq!(ranked[0].0, 0);
    assert_eq!(ranked[0].1.name, "Other");
    assert_eq!(ranked[1].0, 1);
    assert_eq!(ranked[1].1.name, "Comp");
}

#[test]
fn test_affected_includes_changed_and_consumers() {
    // App depends on Lib; Lib's file changed
    let g = graph_of(vec![
        entity("Lib", EntityType::Function, "/repo/libs/lib.ts", vec![]),
        entity(
            "App",
            EntityType::Component,
            "/repo/apps/web/app.ts",
            vec![("Lib", "/repo/libs/lib.ts")],
        ),
        entity("Idle", EntityType::Function, "/repo/libs/idle.ts", vec![]),
    ]);
    let changed = vec!["/repo/libs/lib.ts".to_string()];
    let affected = g.affected_ids(&changed, true);
    let lib_id = g.nodes[idx(&g, "Lib")].id.clone();
    let app_id = g.nodes[idx(&g, "App")].id.clone();
    let idle_id = g.nodes[idx(&g, "Idle")].id.clone();
    assert!(affected.contains(&lib_id));
    assert!(affected.contains(&app_id));
    assert!(!affected.contains(&idle_id));
}

#[test]
fn test_affected_with_project_filter_excludes_other_project() {
    // a mobile file changed, but the query is restricted to the web project
    let g = graph_of(vec![
        entity("Screen", EntityType::Component, "/repo/apps/mobile/screen.ts", vec![]),
        entity("Page", EntityType::Component, "/repo/apps/web/page.ts", vec![]),
    ]);
    let changed = vec!["/repo/apps/mobile/screen.ts".to_string()];
    let kept = nxalyzer::analysis::filter_changed_by_project(
        &changed,
        "/repo",
        Some(nxalyzer::analysis::Project::Web),
    );
    let affected = g.affected_ids(&kept, true);
    assert!(affected.is_empty());
}

#[test]
fn test_sorted_listing_is_ordered_by_id() {
    let mut table = EntityTable::new();
    table.insert(entity("Zed", EntityType::Class, "/s/z.ts", vec![]));
    table.insert(entity("Ann", EntityType::Class, "/s/a.ts", vec![]));
    let listed = nxalyzer::analysis::entities_sorted_by_id(&table);
    assert_eq!(listed.len(), 2);
    assert!(listed[0].id < listed[1].id);
}
