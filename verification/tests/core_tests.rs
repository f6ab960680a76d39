use nxalyzer::analysis::{entities_named, filter_changed_by_project, unused_entities, Project};
use nxalyzer::graph::DependencyGraph;
use nxalyzer::parser::{normalized_path, Parser};
use nxalyzer::entity::{generate_entity_id, Entity, EntityType, ImportInfo};
use nxalyzer::git::{ChangeType, ChangedFile};
use nxalyzer::parser::resolve_import_path;
use nxalyzer::scanner::Scanner;
use nxalyzer::table::{EntityTable, FileParseResult};

#[test]
fn test_change_type_display() {
    assert_eq!(ChangeType::Added.code(), "A");
    assert_eq!(ChangeType::Modified.code(), "M");
    assert_eq!(ChangeType::Deleted.code(), "D");
    assert_eq!(ChangeType::Renamed.code(), "R");
}

#[test]
fn test_changed_file_new() {
    let cf = ChangedFile::new("/path/to/file.ts".to_string(), ChangeType::Modified);
    assert_eq!(cf.path, "/path/to/file.ts");
    assert_eq!(cf.change_type, ChangeType::Modified);
}

#[test]
fn test_entity_id_is_deterministic() {
    let a = generate_entity_id("/src/widget.ts", "Widget");
    let b = generate_entity_id("/src/widget.ts", "Widget");
    assert_eq!(a, b);
    assert_eq!(a, "/src/widget.ts:Widget");
    let c = generate_entity_id("/src/other.ts", "Widget");
    assert_ne!(a, c);
}

#[test]
fn test_entity_new_derives_id_from_file_and_name() {
    let e = Entity::new(
        "Widget".to_string(),
        EntityType::Class,
        "/src/widget.ts".to_string(),
        vec![],
    );
    assert_eq!(e.id, generate_entity_id("/src/widget.ts", "Widget"));
    assert!(!e.used);
}

fn decl(name: &str, kind: EntityType, file: &str, deps: Vec<ImportInfo>) -> Entity {
    Entity::new(name.to_string(), kind, file.to_string(), deps)
}

fn result_of(entities: Vec<Entity>, imports: Vec<ImportInfo>) -> FileParseResult {
    FileParseResult { entities, imports }
}

#[test]
fn test_merge_is_order_independent() {
    // file a.ts declares A and imports B; file b.ts declares B
    let make_a = || {
        let imp = ImportInfo::new("B".to_string(), "/src/b.ts".to_string());
        result_of(
            vec![decl("A", EntityType::Class, "/src/a.ts", vec![imp.clone()])],
            vec![imp],
        )
    };
    let make_b = || result_of(vec![decl("B", EntityType::Service, "/src/b.ts", vec![])], vec![]);

    let mut t1 = EntityTable::new();
    t1.merge_file_result(&make_a());
    t1.merge_file_result(&make_b());

    let mut t2 = EntityTable::new();
    t2.merge_file_result(&make_b());
    t2.merge_file_result(&make_a());

    assert_eq!(t1.len(), 2);
    assert_eq!(t2.len(), 2);
    let b_id = generate_entity_id("/src/b.ts", "B");
    for t in [&t1, &t2] {
        let b = t.get(&b_id).unwrap();
        assert!(matches!(b.entity_type, EntityType::Service));
        assert!(b.used);
        let a = t.get(&generate_entity_id("/src/a.ts", "A")).unwrap();
        assert!(matches!(a.entity_type, EntityType::Class));
        assert!(!a.used);
        assert_eq!(a.deps.len(), 1);
    }
}

#[test]
fn test_merge_import_creates_placeholder() {
    let imp = ImportInfo::new("Ghost".to_string(), "/src/ghost.ts".to_string());
    let r = result_of(vec![], vec![imp]);
    let mut t = EntityTable::new();
    t.merge_file_result(&r);

    let g = t.get(&generate_entity_id("/src/ghost.ts", "Ghost")).unwrap();
    assert!(matches!(g.entity_type, EntityType::Unknown));
    assert!(g.used);
}

#[test]
fn test_merge_declaration_overwrites_placeholder_kind() {
    let imp = ImportInfo::new("Late".to_string(), "/src/late.ts".to_string());
    let mut t = EntityTable::new();
    t.merge_file_result(&result_of(vec![], vec![imp]));
    t.merge_file_result(&result_of(vec![decl("Late", EntityType::Pipe, "/src/late.ts", vec![])], vec![]));

    let e = t.get(&generate_entity_id("/src/late.ts", "Late")).unwrap();
    assert!(matches!(e.entity_type, EntityType::Pipe));
    // the earlier import keeps the entity marked used
    assert!(e.used);
}

#[test]
fn test_unused_reports_only_real_unreferenced_declarations() {
    let mut t = EntityTable::new();
    // Widget: declared, never referenced anywhere
    // Helper: declared and imported by app.ts
    // Phantom: only imported, never declared (placeholder)
    let imp_helper = ImportInfo::new("Helper".to_string(), "/src/helper.ts".to_string());
    let imp_phantom = ImportInfo::new("Phantom".to_string(), "/src/phantom.ts".to_string());
    t.merge_file_result(&result_of(vec![decl("Widget", EntityType::Class, "/src/widget.ts", vec![])], vec![]));
    t.merge_file_result(&result_of(vec![decl("Helper", EntityType::Function, "/src/helper.ts", vec![])], vec![]));
    t.merge_file_result(&result_of(
        vec![decl("App", EntityType::Component, "/src/app.ts", vec![imp_helper.clone(), imp_phantom.clone()])],
        vec![imp_helper, imp_phantom],
    ));

    let unused = unused_entities(&t);
    let names: Vec<&str> = unused.iter().map(|e| e.name.as_str()).collect();
    // App itself is unused too; output is ordered by file path
    assert_eq!(names, vec!["App", "Widget"]);
    assert!(unused.iter().all(|e| !matches!(e.entity_type, EntityType::Unknown)));
}

#[test]
fn test_filter_changed_by_project_excludes_other_projects() {
    let changed = vec![
        "/repo/apps/mobile/src/screen.ts".to_string(),
        "/repo/apps/web/src/page.ts".to_string(),
        "/repo/libs/shared/util.ts".to_string(),
    ];
    let kept = filter_changed_by_project(&changed, "/repo", Some(Project::Web));
    assert_eq!(kept, vec!["/repo/apps/web/src/page.ts".to_string()]);

    let kept_mobile = filter_changed_by_project(&changed, "/repo", Some(Project::Mobile));
    assert_eq!(kept_mobile, vec!["/repo/apps/mobile/src/screen.ts".to_string()]);

    let all = filter_changed_by_project(&changed, "/repo", None);
    assert_eq!(all, changed);
}

#[test]
fn test_scanner_skips_configured_names() {
    let s = Scanner::new();
    assert!(s.should_skip_directory("__mocks__"));
    assert!(s.should_skip_directory("i18n"));
    assert!(!s.should_skip_directory("components"));
    assert!(s.should_skip_file("widget.spec.ts"));
    assert!(s.should_skip_file("types.d.ts"));
    assert!(s.should_skip_file("form-stub.ts"));
    assert!(!s.should_skip_file("widget.ts"));
}

#[test]
fn test_resolve_import_path_relative_and_alias() {
    let relative = resolve_import_path("/p/src/a.ts", "./b", "/p").unwrap();
    assert_eq!(relative, "/p/src/b.ts");

    let parent = resolve_import_path("/p/src/components/button.ts", "../utils/helper", "/p").unwrap();
    assert_eq!(parent, "/p/src/utils/helper.ts");

    let alias = resolve_import_path("/p/apps/web/x.ts", "@awork/models", "/p").unwrap();
    assert_eq!(alias, "/p/libs/shared/src/lib/models.ts");

    assert!(resolve_import_path("/p/src/a.ts", "react", "/p").is_none());
}

#[test]
fn test_normalized_path_collapses_segments() {
    assert_eq!(normalized_path("/a//b/./c/../d"), "/a/b/d");
    assert_eq!(normalized_path("/a/b/"), "/a/b");
    assert_eq!(normalized_path("/a/../../b"), "/b");
    assert_eq!(normalized_path("a/./b"), "a/b");
    assert_eq!(normalized_path("../x"), "../x");
    assert_eq!(normalized_path("/p/src/a.ts"), "/p/src/a.ts");
}

#[test]
fn test_relative_import_links_to_scanned_file() {
    // a reference through `./helper` must collide with the declaration
    // scanned at the canonical path, marking it used and creating an edge

    let parser = Parser::new("/proj");
    let app = parser.parse(
        "import { Helper } from './helper';
export class App {}",
        "/proj/apps/web/app.ts",
    );
    let helper = parser.parse("export function Helper() {}", "/proj/apps/web/helper.ts");

    let mut table = EntityTable::new();
    table.merge_file_result(&app);
    table.merge_file_result(&helper);

    assert_eq!(table.len(), 2);
    let h = table.get(&generate_entity_id("/proj/apps/web/helper.ts", "Helper")).unwrap();
    assert!(matches!(h.entity_type, EntityType::Function));
    assert!(h.used);

    let graph = DependencyGraph::from_entities(&table);
    assert_eq!(graph.nodes.len(), 2);
    assert_eq!(graph.edges.len(), 1);
}

#[test]
fn test_entities_named_finds_all_matches() {
    let mut t = EntityTable::new();
    t.insert(decl("Widget", EntityType::Class, "/src/a.ts", vec![]));
    t.insert(decl("Widget", EntityType::Function, "/src/b.ts", vec![]));
    t.insert(decl("Other", EntityType::Class, "/src/c.ts", vec![]));

    let found = entities_named(&t, "Widget");
    assert_eq!(found.len(), 2);
    assert!(found.iter().all(|e| e.name == "Widget"));
    assert!(entities_named(&t, "Missing").is_empty());
}

#[test]
fn test_entity_type_labels() {
    assert_eq!(EntityType::Unknown.label(), "unknown");
    assert_eq!(EntityType::Class.label(), "class");
    assert_eq!(EntityType::Component.label(), "component");
    assert_eq!(EntityType::Service.label(), "service");
    assert_eq!(EntityType::Directive.label(), "directive");
    assert_eq!(EntityType::Pipe.label(), "pipe");
    assert_eq!(EntityType::Enum.label(), "enum");
    assert_eq!(EntityType::Type.label(), "type");
    assert_eq!(EntityType::Interface.label(), "interface");
    assert_eq!(EntityType::Function.label(), "function");
    assert_eq!(EntityType::Const.label(), "const");
    assert_eq!(EntityType::Worker.label(), "worker");
}
