//! Entities: one exported declaration (or an import-created placeholder)
//! at a specific (file path, name), with a stable identity derived from
//! that pair alone.

use vstd::prelude::*;
use vstd::string::*;

verus! {

/// The kind of an exported declaration. `Unknown` marks a placeholder for a
/// symbol that has been imported but whose declaration has not been seen.
#[derive(Clone, Copy, Debug, PartialEq, Eq, Structural)]
pub enum EntityType {
    Unknown,
    Class,
    Component,
    Service,
    Directive,
    Pipe,
    Enum,
    Type,
    Interface,
    Function,
    Const,
    Worker,
}

impl EntityType {
    /// The lower-case label used when a kind is shown or exported.
    pub open spec fn label_spec(self) -> Seq<char> {
        match self {
            EntityType::Unknown => "unknown"@,
            EntityType::Class => "class"@,
            EntityType::Component => "component"@,
            EntityType::Service => "service"@,
            EntityType::Directive => "directive"@,
            EntityType::Pipe => "pipe"@,
            EntityType::Enum => "enum"@,
            EntityType::Type => "type"@,
            EntityType::Interface => "interface"@,
            EntityType::Function => "function"@,
            EntityType::Const => "const"@,
            EntityType::Worker => "worker"@,
        }
    }

    pub fn label(&self) -> (r: &'static str)
        ensures
            r@ == self.label_spec(),
    {
        match self {
            EntityType::Unknown => "unknown",
            EntityType::Class => "class",
            EntityType::Component => "component",
            EntityType::Service => "service",
            EntityType::Directive => "directive",
            EntityType::Pipe => "pipe",
            EntityType::Enum => "enum",
            EntityType::Type => "type",
            EntityType::Interface => "interface",
            EntityType::Function => "function",
            EntityType::Const => "const",
            EntityType::Worker => "worker",
        }
    }
}

/// An entity's identity is a function of its declaring file and its name
/// only — never of kind, declaration order or scan order.
pub open spec fn entity_id_spec(file_path: Seq<char>, name: Seq<char>) -> Seq<char> {
    file_path + ":"@ + name
}

/// Derives the stable identity for the declaration `name` in `file_path`.
/// Two independently discovered references to the same named thing in the
/// same file always produce the same identity.
pub fn generate_entity_id(file_path: &str, name: &str) -> (r: String)
    ensures
        r@ == entity_id_spec(file_path@, name@),
{
    let mut s = String::from_str(file_path);
    s.append(":");
    s.append(name);
    s
}

/// Mathematical model of an import reference.
#[verifier::ext_equal]
pub ghost struct ImportModel {
    pub id: Seq<char>,
    pub name: Seq<char>,
    pub path: Seq<char>,
}

impl ImportModel {
    /// The identity field agrees with the (path, name) pair it was derived from.
    pub open spec fn coherent(self) -> bool {
        self.id == entity_id_spec(self.path, self.name)
    }
}

/// A resolved import reference: `name` as written at the import site,
/// `path` the absolute resolved file path of the module it refers to.
#[derive(Clone, Debug)]
pub struct ImportInfo {
    pub id: String,
    pub name: String,
    pub path: String,
}

impl View for ImportInfo {
    type V = ImportModel;

    open spec fn view(&self) -> ImportModel {
        ImportModel { id: self.id@, name: self.name@, path: self.path@ }
    }
}

impl ImportInfo {
    pub fn new(name: String, path: String) -> (r: ImportInfo)
        ensures
            r@.name == name@,
            r@.path == path@,
            r@.coherent(),
    {
        let id = generate_entity_id(path.as_str(), name.as_str());
        ImportInfo { id, name, path }
    }

    /// A field-for-field copy whose model is provably unchanged.
    pub fn duplicate(&self) -> (r: ImportInfo)
        ensures
            r@ == self@,
    {
        ImportInfo { id: self.id.clone(), name: self.name.clone(), path: self.path.clone() }
    }
}

/// A field-for-field copy of an import list whose models are unchanged.
pub fn duplicate_imports(v: &Vec<ImportInfo>) -> (r: Vec<ImportInfo>)
    ensures
        r@.len() == v@.len(),
        forall|j: int| 0 <= j < v@.len() ==> r@[j]@ == v@[j]@,
{
    let mut r: Vec<ImportInfo> = Vec::new();
    let mut i: usize = 0;
    while i < v.len()
        invariant
            i <= v.len(),
            r@.len() == i as int,
            forall|j: int| 0 <= j < i ==> r@[j]@ == v@[j]@,
        decreases v.len() - i,
    {
        r.push(v[i].duplicate());
        i += 1;
    }
    r
}

/// Mathematical model of an entity.
#[verifier::ext_equal]
pub ghost struct EntityModel {
    pub id: Seq<char>,
    pub name: Seq<char>,
    pub kind: EntityType,
    pub file_path: Seq<char>,
    pub deps: Seq<ImportModel>,
    pub used: bool,
}

impl EntityModel {
    pub open spec fn coherent(self) -> bool {
        self.id == entity_id_spec(self.file_path, self.name)
    }
}

/// One exported declaration site, or an `Unknown`-kind placeholder for a
/// symbol that is imported but not yet declared. `deps` lists the import
/// references of the declaring file; `used` records whether anything —
/// locally or in another file — refers to the entity.
#[derive(Clone, Debug)]
pub struct Entity {
    pub id: String,
    pub name: String,
    pub entity_type: EntityType,
    pub file_path: String,
    pub deps: Vec<ImportInfo>,
    pub used: bool,
}

impl View for Entity {
    type V = EntityModel;

    open spec fn view(&self) -> EntityModel {
        EntityModel {
            id: self.id@,
            name: self.name@,
            kind: self.entity_type,
            file_path: self.file_path@,
            deps: Seq::new(self.deps@.len(), |i: int| self.deps@[i]@),
            used: self.used,
        }
    }
}

impl Entity {
    pub fn new(name: String, entity_type: EntityType, file_path: String, deps: Vec<ImportInfo>) -> (r:
        Entity)
        ensures
            r@.name == name@,
            r@.kind == entity_type,
            r@.file_path == file_path@,
            r@.deps == Seq::new(deps@.len(), |i: int| deps@[i]@),
            r@.used == false,
            r@.coherent(),
    {
        let id = generate_entity_id(file_path.as_str(), name.as_str());
        Entity { id, name, entity_type, file_path, deps, used: false }
    }

    /// A field-for-field copy whose model is provably unchanged.
    pub fn duplicate(&self) -> (r: Entity)
        ensures
            r@ == self@,
    {
        let deps = duplicate_imports(&self.deps);
        let r = Entity {
            id: self.id.clone(),
            name: self.name.clone(),
            entity_type: self.entity_type,
            file_path: self.file_path.clone(),
            deps,
            used: self.used,
        };
        assert(r@.deps =~= self@.deps);
        r
    }
}

} // verus!
