use nxalyzer::entity::{Entity, EntityType, ImportInfo};
use nxalyzer::graph::DependencyGraph;
use nxalyzer::table::EntityTable;

fn create_entity(
    name: &str,
    entity_type: EntityType,
    file_path: &str,
    deps: Vec<ImportInfo>,
) -> Entity {
    Entity::new(name.to_string(), entity_type, file_path.to_string(), deps)
}

fn table_of(entities: Vec<Entity>) -> EntityTable {
    let mut table = EntityTable::new();
    for e in entities {
        table.insert(e);
    }
    table
}

#[test]
fn test_empty_entities_produces_empty_graph() {
    let table = EntityTable::new();
    let graph = DependencyGraph::from_entities(&table);

    assert!(graph.nodes.is_empty());
    assert!(graph.edges.is_empty());
}

#[test]
fn test_single_entity_creates_node() {
    let entity = create_entity("MyClass", EntityType::Class, "/src/my-class.ts", vec![]);
    let table = table_of(vec![entity]);

    let graph = DependencyGraph::from_entities(&table);

    assert_eq!(graph.nodes.len(), 1);
    assert_eq!(graph.nodes[0].name, "MyClass");
    assert_eq!(graph.nodes[0].entity_type, "class");
    assert_eq!(graph.nodes[0].file, "/src/my-class.ts");
    assert!(graph.edges.is_empty());
}

#[test]
fn test_resolved_import_creates_edge() {
    let target = create_entity("Helper", EntityType::Function, "/src/helper.ts", vec![]);
    let target_id = target.id.clone();

    let import = ImportInfo::new("Helper".to_string(), "/src/helper.ts".to_string());
    let source = create_entity("MyClass", EntityType::Class, "/src/my-class.ts", vec![import]);
    let source_id = source.id.clone();

    let table = table_of(vec![target, source]);
    let graph = DependencyGraph::from_entities(&table);

    assert_eq!(graph.nodes.len(), 2);
    assert_eq!(graph.edges.len(), 1);
    assert_eq!(graph.edges[0].source, source_id);
    assert_eq!(graph.edges[0].target, target_id);
}

#[test]
fn test_unresolved_import_no_edge() {
    let import = ImportInfo::new("ExternalLib".to_string(), "/external/lib.ts".to_string());
    let entity = create_entity("MyClass", EntityType::Class, "/src/my-class.ts", vec![import]);
    let table = table_of(vec![entity]);

    let graph = DependencyGraph::from_entities(&table);

    assert_eq!(graph.nodes.len(), 1);
    assert!(graph.edges.is_empty());
}

#[test]
fn test_multiple_imports_create_multiple_edges() {
    let target1 = create_entity("HelperA", EntityType::Function, "/src/helper-a.ts", vec![]);
    let target1_id = target1.id.clone();

    let target2 = create_entity("HelperB", EntityType::Function, "/src/helper-b.ts", vec![]);
    let target2_id = target2.id.clone();

    let imports = vec![
        ImportInfo::new("HelperA".to_string(), "/src/helper-a.ts".to_string()),
        ImportInfo::new("HelperB".to_string(), "/src/helper-b.ts".to_string()),
    ];
    let source = create_entity("MyClass", EntityType::Class, "/src/my-class.ts", imports);
    let source_id = source.id.clone();

    let table = table_of(vec![target1, target2, source]);
    let graph = DependencyGraph::from_entities(&table);

    assert_eq!(graph.nodes.len(), 3);
    assert_eq!(graph.edges.len(), 2);

    let edge_targets: Vec<&String> = graph.edges.iter().map(|e| &e.target).collect();
    assert!(edge_targets.contains(&&target1_id));
    assert!(edge_targets.contains(&&target2_id));

    for edge in &graph.edges {
        assert_eq!(edge.source, source_id);
    }
}

#[test]
fn test_self_reference_creates_edge() {
    let entity_b = create_entity("HelperB", EntityType::Function, "/src/utils.ts", vec![]);
    let entity_b_id = entity_b.id.clone();

    let import = ImportInfo::new("HelperB".to_string(), "/src/utils.ts".to_string());
    let entity_a = create_entity("HelperA", EntityType::Function, "/src/utils.ts", vec![import]);
    let entity_a_id = entity_a.id.clone();

    let table = table_of(vec![entity_b, entity_a]);
    let graph = DependencyGraph::from_entities(&table);

    assert_eq!(graph.nodes.len(), 2);
    assert_eq!(graph.edges.len(), 1);
    assert_eq!(graph.edges[0].source, entity_a_id);
    assert_eq!(graph.edges[0].target, entity_b_id);
}

#[test]
fn test_build_consumer_index() {
    let target = create_entity("Helper", EntityType::Function, "/src/helper.ts", vec![]);
    let target_id = target.id.clone();

    let import = ImportInfo::new("Helper".to_string(), "/src/helper.ts".to_string());
    let consumer1 = create_entity(
        "Service1",
        EntityType::Class,
        "/src/service1.ts",
        vec![import.clone()],
    );
    let consumer1_id = consumer1.id.clone();

    let consumer2 = create_entity("Service2", EntityType::Class, "/src/service2.ts", vec![import]);
    let consumer2_id = consumer2.id.clone();

    let table = table_of(vec![target, consumer1, consumer2]);
    let graph = DependencyGraph::from_entities(&table);
    let consumer_index = graph.build_consumer_index();

    let target_pos = graph.nodes.iter().position(|n| n.id == target_id).unwrap();
    let consumers = &consumer_index[target_pos];
    assert_eq!(consumers.len(), 2);
    assert!(consumers.iter().any(|&s| graph.nodes[s].id == consumer1_id));
    assert!(consumers.iter().any(|&s| graph.nodes[s].id == consumer2_id));
}

#[test]
fn test_find_consumers_single_hop() {
    let entity_c = create_entity("C", EntityType::Function, "/src/c.ts", vec![]);
    let c_id = entity_c.id.clone();

    let import_c = ImportInfo::new("C".to_string(), "/src/c.ts".to_string());
    let entity_b = create_entity("B", EntityType::Function, "/src/b.ts", vec![import_c]);
    let b_id = entity_b.id.clone();

    let import_b = ImportInfo::new("B".to_string(), "/src/b.ts".to_string());
    let entity_a = create_entity("A", EntityType::Function, "/src/a.ts", vec![import_b]);
    let a_id = entity_a.id.clone();

    let table = table_of(vec![entity_c, entity_b, entity_a]);
    let graph = DependencyGraph::from_entities(&table);

    let mut target_ids: Vec<String> = Vec::new();
    target_ids.push(c_id);

    let consumers = graph.find_consumers(&target_ids, false);
    assert_eq!(consumers.len(), 1);
    assert!(consumers.contains(&b_id));
    assert!(!consumers.contains(&a_id));
}

#[test]
fn test_find_consumers_transitive() {
    let entity_c = create_entity("C", EntityType::Function, "/src/c.ts", vec![]);
    let c_id = entity_c.id.clone();

    let import_c = ImportInfo::new("C".to_string(), "/src/c.ts".to_string());
    let entity_b = create_entity("B", EntityType::Function, "/src/b.ts", vec![import_c]);
    let b_id = entity_b.id.clone();

    let import_b = ImportInfo::new("B".to_string(), "/src/b.ts".to_string());
    let entity_a = create_entity("A", EntityType::Function, "/src/a.ts", vec![import_b]);
    let a_id = entity_a.id.clone();

    let table = table_of(vec![entity_c, entity_b, entity_a]);
    let graph = DependencyGraph::from_entities(&table);

    let mut target_ids: Vec<String> = Vec::new();
    target_ids.push(c_id);

    let consumers = graph.find_consumers(&target_ids, true);
    assert_eq!(consumers.len(), 2);
    assert!(consumers.contains(&b_id));
    assert!(consumers.contains(&a_id));
}

#[test]
fn test_find_consumers_handles_cycles() {
    // A imports C, B imports A, C imports B
    let import_c = ImportInfo::new("C".to_string(), "/src/c.ts".to_string());
    let import_a = ImportInfo::new("A".to_string(), "/src/a.ts".to_string());
    let import_b = ImportInfo::new("B".to_string(), "/src/b.ts".to_string());

    let entity_a = create_entity("A", EntityType::Function, "/src/a.ts", vec![import_c]);
    let a_id = entity_a.id.clone();

    let entity_b = create_entity("B", EntityType::Function, "/src/b.ts", vec![import_a]);
    let b_id = entity_b.id.clone();

    let entity_c = create_entity("C", EntityType::Function, "/src/c.ts", vec![import_b]);
    let c_id = entity_c.id.clone();

    let table = table_of(vec![entity_a, entity_b, entity_c]);
    let graph = DependencyGraph::from_entities(&table);

    let mut target_ids: Vec<String> = Vec::new();
    target_ids.push(a_id.clone());

    let consumers = graph.find_consumers(&target_ids, true);
    // B imports A, so B is a consumer. C imports B, so C is a consumer too.
    assert_eq!(consumers.len(), 2);
    assert!(consumers.contains(&b_id));
    assert!(consumers.contains(&c_id));
}
