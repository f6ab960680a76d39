//! The entity table: per-file extraction results are merged into one
//! deduplicated table keyed by the stable entity identity. The final table
//! is independent of the order in which files are processed.

use vstd::prelude::*;
use vstd::string::*;
use vstd::multiset::Multiset;
use crate::entity::{duplicate_imports, Entity, EntityModel, EntityType, ImportInfo, ImportModel};

verus! {

/// Mathematical model of one file's extraction result.
#[verifier::ext_equal]
pub ghost struct FileResultModel {
    pub entities: Seq<EntityModel>,
    pub imports: Seq<ImportModel>,
}

impl FileResultModel {
    /// Every record carries the identity derived from its own (path, name).
    pub open spec fn coherent(self) -> bool {
        &&& forall|k: int| 0 <= k < self.imports.len() ==> (#[trigger] self.imports[k]).coherent()
        &&& forall|k: int| 0 <= k < self.entities.len() ==> (#[trigger] self.entities[k]).coherent()
    }
}

/// One file's extraction result: the declarations it exports and the import
/// references it makes.
pub struct FileParseResult {
    pub entities: Vec<Entity>,
    pub imports: Vec<ImportInfo>,
}

impl View for FileParseResult {
    type V = FileResultModel;

    open spec fn view(&self) -> FileResultModel {
        FileResultModel {
            entities: Seq::new(self.entities@.len(), |i: int| self.entities@[i]@),
            imports: Seq::new(self.imports@.len(), |i: int| self.imports@[i]@),
        }
    }
}

/// Effect of one import reference on the table: an already-known target is
/// marked used and otherwise untouched; an unknown one becomes a placeholder
/// of kind `Unknown`, itself marked used.
pub open spec fn apply_import(
    m: Map<Seq<char>, EntityModel>,
    imp: ImportModel,
) -> Map<Seq<char>, EntityModel> {
    if m.contains_key(imp.id) {
        m.insert(
            imp.id,
            EntityModel {
                id: m[imp.id].id,
                name: m[imp.id].name,
                kind: m[imp.id].kind,
                file_path: m[imp.id].file_path,
                deps: m[imp.id].deps,
                used: true,
            },
        )
    } else {
        m.insert(
            imp.id,
            EntityModel {
                id: imp.id,
                name: imp.name,
                kind: EntityType::Unknown,
                file_path: imp.path,
                deps: Seq::empty(),
                used: true,
            },
        )
    }
}

pub open spec fn apply_imports(
    m: Map<Seq<char>, EntityModel>,
    imps: Seq<ImportModel>,
) -> Map<Seq<char>, EntityModel>
    decreases imps.len(),
{
    if imps.len() == 0 {
        m
    } else {
        apply_import(apply_imports(m, imps.drop_last()), imps.last())
    }
}

/// Effect of one declaration: an existing record (a placeholder, or an
/// earlier declaration from the same file) keeps its `used` flag and takes
/// the declaration's kind and import references; otherwise the declaration
/// is inserted as given.
pub open spec fn apply_decl(
    m: Map<Seq<char>, EntityModel>,
    e: EntityModel,
) -> Map<Seq<char>, EntityModel> {
    if m.contains_key(e.id) {
        m.insert(
            e.id,
            EntityModel {
                id: m[e.id].id,
                name: m[e.id].name,
                kind: e.kind,
                file_path: m[e.id].file_path,
                deps: e.deps,
                used: m[e.id].used,
            },
        )
    } else {
        m.insert(e.id, e)
    }
}

pub open spec fn apply_decls(
    m: Map<Seq<char>, EntityModel>,
    es: Seq<EntityModel>,
) -> Map<Seq<char>, EntityModel>
    decreases es.len(),
{
    if es.len() == 0 {
        m
    } else {
        apply_decl(apply_decls(m, es.drop_last()), es.last())
    }
}

/// Effect of one whole file result: imports first, then declarations.
pub open spec fn apply_result(
    m: Map<Seq<char>, EntityModel>,
    r: FileResultModel,
) -> Map<Seq<char>, EntityModel> {
    apply_decls(apply_imports(m, r.imports), r.entities)
}

pub open spec fn apply_results(
    m: Map<Seq<char>, EntityModel>,
    rs: Seq<FileResultModel>,
) -> Map<Seq<char>, EntityModel>
    decreases rs.len(),
{
    if rs.len() == 0 {
        m
    } else {
        apply_result(apply_results(m, rs.drop_last()), rs.last())
    }
}

/// The map described by a sequence of entities, later entries winning.
pub open spec fn map_of(s: Seq<EntityModel>) -> Map<Seq<char>, EntityModel>
    decreases s.len(),
{
    if s.len() == 0 {
        Map::empty()
    } else {
        map_of(s.drop_last()).insert(s.last().id, s.last())
    }
}

pub open spec fn distinct_ids(s: Seq<EntityModel>) -> bool {
    forall|i: int, j: int| 0 <= i < j < s.len() ==> s[i].id != s[j].id
}

pub proof fn lemma_map_of_contains(s: Seq<EntityModel>, id: Seq<char>)
    ensures
        map_of(s).contains_key(id) <==> exists|i: int| 0 <= i < s.len() && s[i].id == id,
    decreases s.len(),
{
    if s.len() > 0 {
        lemma_map_of_contains(s.drop_last(), id);
        if s.last().id == id {
            assert(s[s.len() - 1].id == id);
        } else if map_of(s).contains_key(id) {
            let i = choose|i: int| 0 <= i < s.drop_last().len() && s.drop_last()[i].id == id;
            assert(s[i].id == id);
        } else {
            if exists|i: int| 0 <= i < s.len() && s[i].id == id {
                let i = choose|i: int| 0 <= i < s.len() && s[i].id == id;
                assert(s.drop_last()[i].id == id);
            }
        }
    }
}

pub proof fn lemma_map_of_index(s: Seq<EntityModel>, i: int)
    requires
        distinct_ids(s),
        0 <= i < s.len(),
    ensures
        map_of(s).contains_key(s[i].id),
        map_of(s)[s[i].id] == s[i],
    decreases s.len(),
{
    lemma_map_of_contains(s, s[i].id);
    if i == s.len() - 1 {
    } else {
        assert(s.drop_last()[i] == s[i]);
        lemma_map_of_index(s.drop_last(), i);
        assert(s.last().id != s[i].id);
    }
}

pub proof fn lemma_map_of_update(s: Seq<EntityModel>, i: int, e: EntityModel)
    requires
        distinct_ids(s),
        0 <= i < s.len(),
        e.id == s[i].id,
    ensures
        map_of(s.update(i, e)) =~= map_of(s).insert(e.id, e),
    decreases s.len(),
{
    if i == s.len() - 1 {
        assert(s.update(i, e).drop_last() =~= s.drop_last());
        assert(s.update(i, e).last() == e);
    } else {
        assert(s.update(i, e).drop_last() =~= s.drop_last().update(i, e));
        assert(s.drop_last()[i] == s[i]);
        lemma_map_of_update(s.drop_last(), i, e);
        assert(s.update(i, e).last() == s.last());
        assert(s.last().id != e.id);
    }
}

/// The global entity table: one record per identity.
pub struct EntityTable {
    entities: Vec<Entity>,
}

impl View for EntityTable {
    type V = Map<Seq<char>, EntityModel>;

    closed spec fn view(&self) -> Map<Seq<char>, EntityModel> {
        map_of(self.list())
    }
}

impl EntityTable {
    /// The table's records, in insertion order.
    pub closed spec fn list(self) -> Seq<EntityModel> {
        Seq::new(self.entities@.len(), |i: int| self.entities@[i]@)
    }

    /// Well-formed: identities are pairwise distinct and each record's
    /// identity agrees with its own (file path, name).
    pub closed spec fn wf(self) -> bool {
        &&& distinct_ids(self.list())
        &&& forall|i: int| 0 <= i < self.list().len() ==> (#[trigger] self.list()[i]).coherent()
    }

    pub proof fn lemma_view_is_map_of_list(self)
        ensures
            self@ == map_of(self.list()),
            self.wf() ==> distinct_ids(self.list()),
            self.wf() ==> forall|i: int|
                0 <= i < self.list().len() ==> (#[trigger] self.list()[i]).coherent(),
    {
    }

    pub proof fn lemma_contains(self, id: Seq<char>)
        ensures
            self@.contains_key(id) <==> exists|i: int|
                0 <= i < self.list().len() && self.list()[i].id == id,
            self.wf() ==> forall|i: int|
                0 <= i < self.list().len() && (#[trigger] self.list()[i]).id == id
                    ==> self@[id] == self.list()[i],
    {
        lemma_map_of_contains(self.list(), id);
        if self.wf() {
            assert forall|i: int|
                0 <= i < self.list().len() && (#[trigger] self.list()[i]).id == id implies self@[id]
                == self.list()[i] by {
                lemma_map_of_index(self.list(), i);
            }
        }
    }

    pub fn new() -> (r: EntityTable)
        ensures
            r@ == Map::<Seq<char>, EntityModel>::empty(),
            r.list() == Seq::<EntityModel>::empty(),
            r.wf(),
    {
        let r = EntityTable { entities: Vec::new() };
        proof {
            assert(r.list() =~= Seq::<EntityModel>::empty());
        }
        r
    }

    pub fn len(&self) -> (r: usize)
        ensures
            r == self.list().len(),
    {
        self.entities.len()
    }

    /// Read access to the record at a list position.
    pub fn entity_at(&self, i: usize) -> (r: &Entity)
        requires
            i < self.list().len(),
        ensures
            r@ == self.list()[i as int],
    {
        &self.entities[i]
    }

    /// The list position holding `id`, if any.
    fn find_index(&self, id: &String) -> (r: Option<usize>)
        ensures
            match r {
                Some(i) => i < self.list().len() && self.list()[i as int].id == id@,
                None => forall|i: int|
                    0 <= i < self.list().len() ==> (#[trigger] self.list()[i]).id != id@,
            },
    {
        let mut i: usize = 0;
        while i < self.entities.len()
            invariant
                i <= self.list().len(),
                forall|j: int| 0 <= j < i ==> (#[trigger] self.list()[j]).id != id@,
            decreases self.entities.len() - i,
        {
            if self.entities[i].id == *id {
                return Some(i);
            }
            i += 1;
        }
        None
    }

    /// Looks an identity up, as a map lookup on the table's model.
    pub fn get(&self, id: &String) -> (r: Option<&Entity>)
        requires
            self.wf(),
        ensures
            match r {
                Some(e) => self@.contains_key(id@) && e@ == self@[id@],
                None => !self@.contains_key(id@),
            },
    {
        proof {
            self.lemma_contains(id@);
        }
        match self.find_index(id) {
            Some(i) => Some(&self.entities[i]),
            None => None,
        }
    }

    /// Merges one file's extraction result into the table, as `apply_result`
    /// describes: every import marks its target used (creating an
    /// `Unknown`-kind placeholder if the target is not yet known), then every
    /// declaration overwrites kind and import references of its record —
    /// preserving the `used` flag the table already holds — or is inserted.
    pub fn merge_file_result(&mut self, res: &FileParseResult)
        requires
            old(self).wf(),
            res@.coherent(),
        ensures
            final(self).wf(),
            final(self)@ == apply_result(old(self)@, res@),
    {
        let ghost m0 = self@;
        let mut k: usize = 0;
        while k < res.imports.len()
            invariant
                k <= res.imports.len(),
                res@.coherent(),
                self.wf(),
                self@ == apply_imports(m0, res@.imports.take(k as int)),
            decreases res.imports.len() - k,
        {
            let ghost m_prev = self@;
            let imp = &res.imports[k];
            proof {
                self.lemma_contains(imp@.id);
                assert(res@.imports[k as int].coherent());
                assert(res@.imports[k as int] == imp@);
            }
            match self.find_index(&imp.id) {
                Some(i) => {
                    let ghost prev = self.list()[i as int];
                    let mut e2 = self.entities[i].duplicate();
                    e2.used = true;
                    proof {
                        assert(prev.coherent());
                        assert(e2@ == EntityModel {
                            id: prev.id,
                            name: prev.name,
                            kind: prev.kind,
                            file_path: prev.file_path,
                            deps: prev.deps,
                            used: true,
                        });
                        assert(m_prev[imp@.id] == prev);
                    }
                    self.insert(e2);
                    proof {
                        assert(self@ =~= apply_import(m_prev, imp@));
                    }
                },
                None => {
                    let mut ph = Entity::new(
                        imp.name.clone(),
                        EntityType::Unknown,
                        imp.path.clone(),
                        Vec::new(),
                    );
                    ph.used = true;
                    proof {
                        assert(ph@.deps =~= Seq::<ImportModel>::empty());
                        assert(ph@.id == imp@.id);
                        assert(!m_prev.contains_key(imp@.id));
                    }
                    self.insert(ph);
                    proof {
                        assert(self@ =~= apply_import(m_prev, imp@));
                    }
                },
            }
            proof {
                assert(res@.imports.take(k as int + 1).drop_last() =~= res@.imports.take(k as int));
                assert(res@.imports.take(k as int + 1).last() == imp@);
            }
            k += 1;
        }
        proof {
            assert(res@.imports.take(res.imports.len() as int) =~= res@.imports);
        }
        let ghost m1 = self@;
        let mut k: usize = 0;
        while k < res.entities.len()
            invariant
                k <= res.entities.len(),
                res@.coherent(),
                self.wf(),
                self@ == apply_decls(m1, res@.entities.take(k as int)),
            decreases res.entities.len() - k,
        {
            let ghost m_prev = self@;
            let decl = &res.entities[k];
            proof {
                self.lemma_contains(decl@.id);
                assert(res@.entities[k as int].coherent());
                assert(res@.entities[k as int] == decl@);
            }
            match self.find_index(&decl.id) {
                Some(i) => {
                    let ghost prev = self.list()[i as int];
                    let mut e2 = self.entities[i].duplicate();
                    e2.entity_type = decl.entity_type;
                    e2.deps = duplicate_imports(&decl.deps);
                    proof {
                        assert(prev.coherent());
                        assert(e2@ =~~= EntityModel {
                            id: prev.id,
                            name: prev.name,
                            kind: decl@.kind,
                            file_path: prev.file_path,
                            deps: decl@.deps,
                            used: prev.used,
                        });
                        assert(m_prev[decl@.id] == prev);
                    }
                    self.insert(e2);
                    proof {
                        assert(self@ =~= apply_decl(m_prev, decl@));
                    }
                },
                None => {
                    let e2 = decl.duplicate();
                    self.insert(e2);
                    proof {
                        assert(!m_prev.contains_key(decl@.id));
                        assert(self@ =~= apply_decl(m_prev, decl@));
                    }
                },
            }
            proof {
                assert(res@.entities.take(k as int + 1).drop_last() =~= res@.entities.take(
                    k as int,
                ));
                assert(res@.entities.take(k as int + 1).last() == decl@);
            }
            k += 1;
        }
        proof {
            assert(res@.entities.take(res.entities.len() as int) =~= res@.entities);
        }
    }

    /// Inserts a record, replacing any record with the same identity.
    pub fn insert(&mut self, e: Entity)
        requires
            old(self).wf(),
            e@.coherent(),
        ensures
            final(self).wf(),
            final(self)@ == old(self)@.insert(e@.id, e@),
            old(self)@.contains_key(e@.id) ==> final(self).list().len() == old(self).list().len(),
            !old(self)@.contains_key(e@.id) ==> final(self).list() == old(self).list().push(e@),
    {
        proof {
            self.lemma_contains(e@.id);
        }
        let ghost e_m = e@;
        match self.find_index(&e.id) {
            Some(i) => {
                proof {
                    lemma_map_of_update(self.list(), i as int, e_m);
                }
                self.entities[i] = e;
                proof {
                    assert(self.list() =~= old(self).list().update(i as int, e_m));
                }
            },
            None => {
                self.entities.push(e);
                proof {
                    assert(self.list() =~= old(self).list().push(e_m));
                    assert(self.list().drop_last() =~= old(self).list());
                }
            },
        }
    }
}

/// Some import in `imps` carries identity `id`.
pub open spec fn has_import_seq(imps: Seq<ImportModel>, id: Seq<char>) -> bool {
    exists|k: int| 0 <= k < imps.len() && (#[trigger] imps[k]).id == id
}

/// Some declaration in `es` carries identity `id`.
pub open spec fn has_decl_seq(es: Seq<EntityModel>, id: Seq<char>) -> bool {
    exists|k: int| 0 <= k < es.len() && (#[trigger] es[k]).id == id
}

/// The kind of the last declaration of `id` in `es`.
pub open spec fn last_decl_kind(es: Seq<EntityModel>, id: Seq<char>) -> EntityType
    decreases es.len(),
{
    if es.len() == 0 {
        EntityType::Unknown
    } else if es.last().id == id {
        es.last().kind
    } else {
        last_decl_kind(es.drop_last(), id)
    }
}

/// The import references of the last declaration of `id` in `es`.
pub open spec fn last_decl_deps(es: Seq<EntityModel>, id: Seq<char>) -> Seq<ImportModel>
    decreases es.len(),
{
    if es.len() == 0 {
        Seq::empty()
    } else if es.last().id == id {
        es.last().deps
    } else {
        last_decl_deps(es.drop_last(), id)
    }
}

/// The `used` flag of the first declaration of `id` in `es`.
pub open spec fn first_decl_used(es: Seq<EntityModel>, id: Seq<char>) -> bool
    decreases es.len(),
{
    if es.len() == 0 {
        false
    } else if es[0].id == id {
        es[0].used
    } else {
        first_decl_used(es.drop_first(), id)
    }
}

proof fn lemma_first_decl_used_drop_last(es: Seq<EntityModel>, id: Seq<char>)
    requires
        es.len() > 0,
    ensures
        first_decl_used(es, id) == if has_decl_seq(es.drop_last(), id) {
            first_decl_used(es.drop_last(), id)
        } else if es.last().id == id {
            es.last().used
        } else {
            false
        },
    decreases es.len(),
{
    let front = es.drop_last();
    if es[0].id == id {
        assert(first_decl_used(es, id) == es[0].used);
        if es.len() == 1 {
            assert(front.len() == 0);
            assert(!has_decl_seq(front, id));
            assert(es.last() == es[0]);
        } else {
            assert(front[0] == es[0]);
            assert(has_decl_seq(front, id));
            assert(first_decl_used(front, id) == front[0].used);
        }
    } else {
        assert(first_decl_used(es, id) == first_decl_used(es.drop_first(), id));
        if es.len() == 1 {
            assert(!has_decl_seq(front, id));
            assert(es.last() == es[0]);
            assert(es.drop_first().len() == 0);
            assert(first_decl_used(es.drop_first(), id) == false);
        } else {
            let tail = es.drop_first();
            lemma_first_decl_used_drop_last(tail, id);
            assert(tail.drop_last() =~= front.drop_first());
            assert(tail.last() == es.last());
            if has_decl_seq(front, id) {
                let k = choose|k: int| 0 <= k < front.len() && (#[trigger] front[k]).id == id;
                assert(front[0] == es[0]);
                assert(k > 0);
                assert(front.drop_first()[k - 1].id == id);
                assert(has_decl_seq(tail.drop_last(), id));
                assert(first_decl_used(tail, id) == first_decl_used(tail.drop_last(), id));
                assert(first_decl_used(front, id) == first_decl_used(front.drop_first(), id));
                assert(first_decl_used(es, id) == first_decl_used(front, id));
            } else {
                if has_decl_seq(tail.drop_last(), id) {
                    let k = choose|k: int|
                        0 <= k < tail.drop_last().len() && (#[trigger] tail.drop_last()[k]).id
                            == id;
                    assert(front[k + 1].id == id);
                    assert(has_decl_seq(front, id));
                }
                assert(!has_decl_seq(tail.drop_last(), id));
                assert(first_decl_used(es, id) == first_decl_used(tail, id));
            }
        }
    }
}

/// Effect of a whole import pass on one key: a key with an import becomes
/// present and used; its kind and references are untouched when it was
/// present, and are the placeholder's when it was not. Other keys are
/// untouched.
proof fn lemma_apply_imports_at(m: Map<Seq<char>, EntityModel>, imps: Seq<ImportModel>, id: Seq<
    char,
>)
    ensures
        apply_imports(m, imps).contains_key(id) <==> (m.contains_key(id) || has_import_seq(
            imps,
            id,
        )),
        !has_import_seq(imps, id) && m.contains_key(id) ==> apply_imports(m, imps)[id] == m[id],
        has_import_seq(imps, id) && m.contains_key(id) ==> {
            let e = apply_imports(m, imps)[id];
            e.kind == m[id].kind && e.deps == m[id].deps && e.used
        },
        has_import_seq(imps, id) && !m.contains_key(id) ==> {
            let e = apply_imports(m, imps)[id];
            e.kind == EntityType::Unknown && e.deps == Seq::<ImportModel>::empty() && e.used
        },
    decreases imps.len(),
{
    if imps.len() > 0 {
        let front = imps.drop_last();
        lemma_apply_imports_at(m, front, id);
        if has_import_seq(front, id) {
            assert(has_import_seq(imps, id)) by {
                let k = choose|k: int| 0 <= k < front.len() && (#[trigger] front[k]).id == id;
                assert(imps[k].id == id);
            }
        }
        if imps.last().id == id {
            assert(imps[imps.len() - 1].id == id);
            assert(has_import_seq(imps, id));
        }
        if has_import_seq(imps, id) && !has_import_seq(front, id) && imps.last().id != id {
            let k = choose|k: int| 0 <= k < imps.len() && (#[trigger] imps[k]).id == id;
            assert(front[k].id == id);
        }
    }
}

/// Effect of a whole declaration pass on one key: a declared key takes the
/// last declaration's kind and references; its `used` flag is preserved
/// when the key was present and is the first declaration's otherwise.
/// Other keys are untouched.
proof fn lemma_apply_decls_at(m: Map<Seq<char>, EntityModel>, es: Seq<EntityModel>, id: Seq<char>)
    ensures
        apply_decls(m, es).contains_key(id) <==> (m.contains_key(id) || has_decl_seq(es, id)),
        !has_decl_seq(es, id) && m.contains_key(id) ==> apply_decls(m, es)[id] == m[id],
        has_decl_seq(es, id) ==> {
            let e = apply_decls(m, es)[id];
            e.kind == last_decl_kind(es, id) && e.deps == last_decl_deps(es, id)
        },
        has_decl_seq(es, id) && m.contains_key(id) ==> apply_decls(m, es)[id].used == m[id].used,
        has_decl_seq(es, id) && !m.contains_key(id) ==> apply_decls(m, es)[id].used
            == first_decl_used(es, id),
    decreases es.len(),
{
    if es.len() > 0 {
        let front = es.drop_last();
        lemma_apply_decls_at(m, front, id);
        lemma_first_decl_used_drop_last(es, id);
        if has_decl_seq(front, id) {
            assert(has_decl_seq(es, id)) by {
                let k = choose|k: int| 0 <= k < front.len() && (#[trigger] front[k]).id == id;
                assert(es[k].id == id);
            }
        }
        if es.last().id == id {
            assert(es[es.len() - 1].id == id);
            assert(has_decl_seq(es, id));
        }
        if has_decl_seq(es, id) && !has_decl_seq(front, id) && es.last().id != id {
            let k = choose|k: int| 0 <= k < es.len() && (#[trigger] es[k]).id == id;
            assert(front[k].id == id);
        }
    }
}

/// Some result in the multiset declares `id`.
pub open spec fn ms_declared(ms: Multiset<FileResultModel>, id: Seq<char>) -> bool {
    exists|r: FileResultModel| #[trigger] ms.contains(r) && has_decl_seq(r.entities, id)
}

/// Some result in the multiset imports `id`.
pub open spec fn ms_imported(ms: Multiset<FileResultModel>, id: Seq<char>) -> bool {
    exists|r: FileResultModel| #[trigger] ms.contains(r) && has_import_seq(r.imports, id)
}

/// The result that declares `id`; under `wf_results` there is at most one.
pub open spec fn declarer_of(ms: Multiset<FileResultModel>, id: Seq<char>) -> FileResultModel {
    choose|r: FileResultModel| #[trigger] ms.contains(r) && has_decl_seq(r.entities, id)
}

/// Well-formed set of per-file extraction results: a given identity is
/// declared by at most one result — its declaring file's. (The identity
/// fixes the declaring file, so two files never declare the same one.)
pub open spec fn wf_results(ms: Multiset<FileResultModel>) -> bool {
    forall|r1: FileResultModel, r2: FileResultModel, id: Seq<char>|
        #![trigger ms.contains(r1), ms.contains(r2), has_decl_seq(r1.entities, id), has_decl_seq(r2.entities, id)]
        ms.contains(r1) && ms.contains(r2) && has_decl_seq(r1.entities, id) && has_decl_seq(
            r2.entities,
            id,
        ) ==> r1 == r2
}

/// The kind the table holds for `id` once every result is merged.
pub open spec fn canonical_kind(ms: Multiset<FileResultModel>, id: Seq<char>) -> EntityType {
    if ms_declared(ms, id) {
        last_decl_kind(declarer_of(ms, id).entities, id)
    } else {
        EntityType::Unknown
    }
}

/// The import references the table holds for `id` once every result is merged.
pub open spec fn canonical_deps(ms: Multiset<FileResultModel>, id: Seq<char>) -> Seq<ImportModel> {
    if ms_declared(ms, id) {
        last_decl_deps(declarer_of(ms, id).entities, id)
    } else {
        Seq::empty()
    }
}

/// The `used` flag the table holds for `id` once every result is merged:
/// set exactly when something imports `id`, or its declaration was seen
/// used in its own file.
pub open spec fn canonical_used(ms: Multiset<FileResultModel>, id: Seq<char>) -> bool {
    ms_imported(ms, id) || (ms_declared(ms, id) && first_decl_used(
        declarer_of(ms, id).entities,
        id,
    ))
}

/// `m` is the table the multiset of results describes: a key is present
/// exactly when declared or imported, and kind, references and `used`
/// flag are the canonical ones — a characterization in which the
/// processing order does not occur.
pub open spec fn canonical_table(
    ms: Multiset<FileResultModel>,
    m: Map<Seq<char>, EntityModel>,
) -> bool {
    &&& forall|id: Seq<char>|
        #[trigger] m.contains_key(id) <==> (ms_declared(ms, id) || ms_imported(ms, id))
    &&& forall|id: Seq<char>|
        m.contains_key(id) ==> (#[trigger] m[id]).kind == canonical_kind(ms, id) && m[id].deps
            == canonical_deps(ms, id) && m[id].used == canonical_used(ms, id)
}

/// Merging the results in any order yields the canonical table.
pub proof fn lemma_apply_results_canonical(rs: Seq<FileResultModel>)
    requires
        wf_results(rs.to_multiset()),
    ensures
        canonical_table(rs.to_multiset(), apply_results(Map::empty(), rs)),
    decreases rs.len(),
{
    broadcast use vstd::seq_lib::group_to_multiset_ensures;
    broadcast use vstd::multiset::group_multiset_axioms;

    let ms = rs.to_multiset();
    let m = apply_results(Map::<Seq<char>, EntityModel>::empty(), rs);
    if rs.len() == 0 {
        assert forall|id: Seq<char>| !(#[trigger] m.contains_key(id)) by {}
        assert forall|id: Seq<char>| !ms_declared(ms, id) && !ms_imported(ms, id) by {
            if ms_declared(ms, id) {
                let r = choose|r: FileResultModel|
                    #[trigger] ms.contains(r) && has_decl_seq(r.entities, id);
                assert(rs.contains(r));
            }
            if ms_imported(ms, id) {
                let r = choose|r: FileResultModel|
                    #[trigger] ms.contains(r) && has_import_seq(r.imports, id);
                assert(rs.contains(r));
            }
        }
    } else {
        let front = rs.drop_last();
        let r = rs.last();
        let ms0 = front.to_multiset();
        assert(front.push(r) =~= rs);
        assert(ms == ms0.insert(r));
        assert(wf_results(ms0)) by {
            assert forall|r1: FileResultModel, r2: FileResultModel, id: Seq<char>|
                #![trigger ms0.contains(r1), ms0.contains(r2), has_decl_seq(r1.entities, id), has_decl_seq(r2.entities, id)]
                ms0.contains(r1) && ms0.contains(r2) && has_decl_seq(r1.entities, id)
                    && has_decl_seq(r2.entities, id) implies r1 == r2 by {
                assert(ms.contains(r1));
                assert(ms.contains(r2));
            }
        }
        lemma_apply_results_canonical(front);
        let m0 = apply_results(Map::<Seq<char>, EntityModel>::empty(), front);
        let m1 = apply_imports(m0, r.imports);
        assert(m == apply_decls(m1, r.entities));
        assert(ms.contains(r));
        assert forall|id: Seq<char>|
            #[trigger] m.contains_key(id) <==> (ms_declared(ms, id) || ms_imported(ms, id)) by {
            lemma_canonical_step_contains(ms0, r, m0, m, id);
        }
        assert forall|id: Seq<char>| m.contains_key(id) implies (#[trigger] m[id]).kind
            == canonical_kind(ms, id) && m[id].deps == canonical_deps(ms, id) && m[id].used
            == canonical_used(ms, id) by {
            lemma_canonical_step_value(ms0, r, m0, m, id);
        }
    }
}

/// One merge step preserves the containment half of the characterization.
proof fn lemma_canonical_step_contains(
    ms0: Multiset<FileResultModel>,
    r: FileResultModel,
    m0: Map<Seq<char>, EntityModel>,
    m: Map<Seq<char>, EntityModel>,
    id: Seq<char>,
)
    requires
        canonical_table(ms0, m0),
        m == apply_result(m0, r),
    ensures
        m.contains_key(id) <==> (ms_declared(ms0.insert(r), id) || ms_imported(ms0.insert(r), id)),
{
    broadcast use vstd::multiset::group_multiset_axioms;

    let ms = ms0.insert(r);
    let hi = has_import_seq(r.imports, id);
    let hd = has_decl_seq(r.entities, id);
    let m1 = apply_imports(m0, r.imports);
    lemma_apply_imports_at(m0, r.imports, id);
    lemma_apply_decls_at(m1, r.entities, id);
    assert(ms.contains(r));
    assert(m.contains_key(id) <==> (m0.contains_key(id) || hi || hd));
    assert(ms_declared(ms, id) <==> (ms_declared(ms0, id) || hd)) by {
        if ms_declared(ms0, id) {
            let r2 = choose|r2: FileResultModel|
                #[trigger] ms0.contains(r2) && has_decl_seq(r2.entities, id);
            assert(ms.contains(r2));
        }
        if ms_declared(ms, id) && !hd {
            let r2 = choose|r2: FileResultModel|
                #[trigger] ms.contains(r2) && has_decl_seq(r2.entities, id);
            assert(r2 != r);
            assert(ms0.contains(r2));
        }
    }
    assert(ms_imported(ms, id) <==> (ms_imported(ms0, id) || hi)) by {
        if ms_imported(ms0, id) {
            let r2 = choose|r2: FileResultModel|
                #[trigger] ms0.contains(r2) && has_import_seq(r2.imports, id);
            assert(ms.contains(r2));
        }
        if ms_imported(ms, id) && !hi {
            let r2 = choose|r2: FileResultModel|
                #[trigger] ms.contains(r2) && has_import_seq(r2.imports, id);
            assert(r2 != r);
            assert(ms0.contains(r2));
        }
    }
}

/// One merge step preserves the value half of the characterization.
proof fn lemma_canonical_step_value(
    ms0: Multiset<FileResultModel>,
    r: FileResultModel,
    m0: Map<Seq<char>, EntityModel>,
    m: Map<Seq<char>, EntityModel>,
    id: Seq<char>,
)
    requires
        canonical_table(ms0, m0),
        m == apply_result(m0, r),
        wf_results(ms0.insert(r)),
        m.contains_key(id),
    ensures
        m[id].kind == canonical_kind(ms0.insert(r), id),
        m[id].deps == canonical_deps(ms0.insert(r), id),
        m[id].used == canonical_used(ms0.insert(r), id),
{
    broadcast use vstd::multiset::group_multiset_axioms;

    let ms = ms0.insert(r);
    let hi = has_import_seq(r.imports, id);
    let hd = has_decl_seq(r.entities, id);
    let m1 = apply_imports(m0, r.imports);
    lemma_apply_imports_at(m0, r.imports, id);
    lemma_apply_decls_at(m1, r.entities, id);
    lemma_canonical_step_contains(ms0, r, m0, m, id);
    assert(ms.contains(r));
    assert(ms_declared(ms, id) <==> (ms_declared(ms0, id) || hd)) by {
        if ms_declared(ms0, id) {
            let r2 = choose|r2: FileResultModel|
                #[trigger] ms0.contains(r2) && has_decl_seq(r2.entities, id);
            assert(ms.contains(r2));
        }
        if ms_declared(ms, id) && !hd {
            let r2 = choose|r2: FileResultModel|
                #[trigger] ms.contains(r2) && has_decl_seq(r2.entities, id);
            assert(r2 != r);
            assert(ms0.contains(r2));
        }
    }
    assert(ms_imported(ms, id) <==> (ms_imported(ms0, id) || hi)) by {
        if ms_imported(ms0, id) {
            let r2 = choose|r2: FileResultModel|
                #[trigger] ms0.contains(r2) && has_import_seq(r2.imports, id);
            assert(ms.contains(r2));
        }
        if ms_imported(ms, id) && !hi {
            let r2 = choose|r2: FileResultModel|
                #[trigger] ms.contains(r2) && has_import_seq(r2.imports, id);
            assert(r2 != r);
            assert(ms0.contains(r2));
        }
    }
    if ms_declared(ms0, id) {
        let r0 = declarer_of(ms0, id);
        assert(ms0.contains(r0) && has_decl_seq(r0.entities, id));
        assert(ms.contains(r0));
        assert(declarer_of(ms, id) == r0 || declarer_of(ms, id) == r) by {
            let rx = declarer_of(ms, id);
            assert(ms.contains(rx) && has_decl_seq(rx.entities, id));
        }
    }
    if hd {
        // `r` declares `id`; it is the declaring result of the whole set.
        assert(ms_declared(ms, id));
        let rx = declarer_of(ms, id);
        assert(ms.contains(rx) && has_decl_seq(rx.entities, id));
        assert(rx == r);
        assert(m[id].kind == last_decl_kind(r.entities, id));
        assert(m[id].deps == last_decl_deps(r.entities, id));
        if m1.contains_key(id) {
            assert(m[id].used == m1[id].used);
            if hi {
                assert(m1[id].used);
                assert(canonical_used(ms, id));
            } else {
                assert(m0.contains_key(id));
                assert(m1[id] == m0[id]);
                assert(m0[id].used == canonical_used(ms0, id));
                if ms_declared(ms0, id) {
                    assert(declarer_of(ms0, id) == r) by {
                        let r0 = declarer_of(ms0, id);
                        assert(ms0.contains(r0) && has_decl_seq(r0.entities, id));
                        assert(ms.contains(r0));
                    }
                    assert(m[id].used == canonical_used(ms, id));
                } else {
                    assert(ms_imported(ms0, id));
                    assert(m0[id].used);
                    assert(canonical_used(ms, id));
                }
            }
        } else {
            assert(!hi && !m0.contains_key(id));
            assert(m[id].used == first_decl_used(r.entities, id));
            assert(!ms_imported(ms0, id) && !ms_declared(ms0, id));
            assert(canonical_used(ms, id) == first_decl_used(r.entities, id));
        }
    } else {
        // `r` does not declare `id`.
        if m0.contains_key(id) {
            if hi {
                assert(m[id].kind == m0[id].kind && m[id].deps == m0[id].deps);
                assert(m[id].used);
                assert(canonical_used(ms, id)) by {
                    assert(ms_imported(ms, id));
                }
            } else {
                assert(m1[id] == m0[id]);
                assert(m[id] == m0[id]);
            }
            // canonical kind and deps carry over from the smaller set
            if ms_declared(ms0, id) {
                assert(declarer_of(ms, id) == declarer_of(ms0, id)) by {
                    let r0 = declarer_of(ms0, id);
                    assert(ms0.contains(r0) && has_decl_seq(r0.entities, id));
                    assert(ms.contains(r0));
                    let rx = declarer_of(ms, id);
                    assert(ms.contains(rx) && has_decl_seq(rx.entities, id));
                }
                assert(m[id].kind == canonical_kind(ms, id));
                assert(m[id].deps == canonical_deps(ms, id));
                if !hi {
                    assert(m[id].used == canonical_used(ms, id));
                }
            } else {
                assert(!ms_declared(ms, id));
                assert(m0[id].kind == EntityType::Unknown);
                assert(m0[id].deps == Seq::<ImportModel>::empty());
                assert(m[id].kind == canonical_kind(ms, id));
                assert(m[id].deps == canonical_deps(ms, id));
                assert(ms_imported(ms0, id));
                assert(m0[id].used);
                if !hi {
                    assert(m[id].used == canonical_used(ms, id));
                }
            }
        } else {
            // newly created placeholder from `r`'s imports
            assert(hi);
            assert(m1.contains_key(id));
            assert(m[id].kind == m1[id].kind && m[id].deps == m1[id].deps && m[id].used
                == m1[id].used);
            assert(m1[id].kind == EntityType::Unknown && m1[id].deps == Seq::<
                ImportModel,
            >::empty() && m1[id].used);
            assert(!ms_declared(ms0, id) && !ms_imported(ms0, id));
            assert(!ms_declared(ms, id));
            assert(canonical_kind(ms, id) == EntityType::Unknown);
            assert(canonical_deps(ms, id) == Seq::<ImportModel>::empty());
            assert(canonical_used(ms, id)) by {
                assert(ms_imported(ms, id));
            }
        }
    }
}

/// Merge order independence: feeding any two orderings of the same set of
/// per-file extraction results through the table builder yields the same
/// table — the same keys, and for every key the same kind, the same
/// `used` flag and the same import references.
pub proof fn lemma_merge_order_independence(rs1: Seq<FileResultModel>, rs2: Seq<FileResultModel>)
    requires
        rs1.to_multiset() == rs2.to_multiset(),
        wf_results(rs1.to_multiset()),
    ensures
        forall|id: Seq<char>|
            #![trigger apply_results(Map::<Seq<char>, EntityModel>::empty(), rs1).contains_key(id)]
            #![trigger apply_results(Map::<Seq<char>, EntityModel>::empty(), rs2).contains_key(id)]
            apply_results(Map::<Seq<char>, EntityModel>::empty(), rs1).contains_key(id)
                <==> apply_results(Map::<Seq<char>, EntityModel>::empty(), rs2).contains_key(id),
        forall|id: Seq<char>|
            apply_results(Map::<Seq<char>, EntityModel>::empty(), rs1).contains_key(id) ==> {
                let e1 = #[trigger] apply_results(Map::<Seq<char>, EntityModel>::empty(), rs1)[id];
                let e2 = apply_results(Map::<Seq<char>, EntityModel>::empty(), rs2)[id];
                e1.kind == e2.kind && e1.used == e2.used && e1.deps == e2.deps
            },
{
    lemma_apply_results_canonical(rs1);
    lemma_apply_results_canonical(rs2);
}

/// The models of a sequence of file results, in order.
pub open spec fn models_of(results: Seq<FileParseResult>) -> Seq<FileResultModel> {
    Seq::new(results.len(), |i: int| results[i]@)
}

/// Builds the global entity table from an ordered stream of per-file
/// extraction results by merging them one after another.
pub fn build_entity_table(results: &Vec<FileParseResult>) -> (r: EntityTable)
    requires
        forall|i: int| 0 <= i < results@.len() ==> (#[trigger] results@[i]@).coherent(),
    ensures
        r.wf(),
        r@ == apply_results(Map::<Seq<char>, EntityModel>::empty(), models_of(results@)),
{
    let mut table = EntityTable::new();
    let mut j: usize = 0;
    while j < results.len()
        invariant
            j <= results.len(),
            forall|i: int| 0 <= i < results@.len() ==> (#[trigger] results@[i]@).coherent(),
            table.wf(),
            table@ == apply_results(
                Map::<Seq<char>, EntityModel>::empty(),
                models_of(results@).take(j as int),
            ),
        decreases results.len() - j,
    {
        table.merge_file_result(&results[j]);
        proof {
            assert(models_of(results@).take(j as int + 1).drop_last() =~= models_of(
                results@,
            ).take(j as int));
            assert(models_of(results@).take(j as int + 1).last() == results@[j as int]@);
        }
        j += 1;
    }
    proof {
        assert(models_of(results@).take(results@.len() as int) =~= models_of(results@));
    }
    table
}

} // verus!
