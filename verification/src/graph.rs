//! The dependency graph: a derived, read-only view of an entity table.
//! One node per entity; one edge per import reference that resolves, by
//! (file path, name), to an entity present in the table.

use vstd::prelude::*;
use vstd::string::*;
use crate::entity::{EntityModel, EntityType, ImportModel};
use crate::table::EntityTable;
use crate::table::distinct_ids;

verus! {

/// Mathematical model of a graph node.
#[verifier::ext_equal]
pub ghost struct NodeModel {
    pub id: Seq<char>,
    pub name: Seq<char>,
    pub entity_type: Seq<char>,
    pub file: Seq<char>,
    pub kind: EntityType,
}

/// The node a table record gives rise to.
pub open spec fn node_model_of(e: EntityModel) -> NodeModel {
    NodeModel {
        id: e.id,
        name: e.name,
        entity_type: e.kind.label_spec(),
        file: e.file_path,
        kind: e.kind,
    }
}

pub struct GraphNode {
    pub id: String,
    pub name: String,
    pub entity_type: String,
    pub file: String,
    pub kind: EntityType,
}

impl View for GraphNode {
    type V = NodeModel;

    open spec fn view(&self) -> NodeModel {
        NodeModel {
            id: self.id@,
            name: self.name@,
            entity_type: self.entity_type@,
            file: self.file@,
            kind: self.kind,
        }
    }
}

impl GraphNode {
    /// A field-for-field copy whose model is provably unchanged.
    pub fn duplicate(&self) -> (r: GraphNode)
        ensures
            r@ == self@,
    {
        GraphNode {
            id: self.id.clone(),
            name: self.name.clone(),
            entity_type: self.entity_type.clone(),
            file: self.file.clone(),
            kind: self.kind,
        }
    }
}

#[verifier::ext_equal]
pub ghost struct EdgeModel {
    pub source: Seq<char>,
    pub target: Seq<char>,
}

pub struct GraphEdge {
    pub source: String,
    pub target: String,
}

impl View for GraphEdge {
    type V = EdgeModel;

    open spec fn view(&self) -> EdgeModel {
        EdgeModel { source: self.source@, target: self.target@ }
    }
}

/// Does the table record at `j` declare `name` in file `path`?
pub open spec fn entity_matches(e: EntityModel, path: Seq<char>, name: Seq<char>) -> bool {
    e.file_path == path && e.name == name
}

/// The table position an import reference resolves to, if any. With a
/// well-formed table at most one position matches.
pub open spec fn resolve_target(s: Seq<EntityModel>, path: Seq<char>, name: Seq<char>) -> Option<
    int,
> {
    if exists|j: int| 0 <= j < s.len() && entity_matches(#[trigger] s[j], path, name) {
        Some(choose|j: int| 0 <= j < s.len() && entity_matches(#[trigger] s[j], path, name))
    } else {
        None
    }
}

pub proof fn lemma_resolve_unique(s: Seq<EntityModel>, j1: int, j2: int)
    requires
        distinct_ids(s),
        forall|i: int| 0 <= i < s.len() ==> (#[trigger] s[i]).coherent(),
        0 <= j1 < s.len(),
        0 <= j2 < s.len(),
        s[j1].file_path == s[j2].file_path,
        s[j1].name == s[j2].name,
    ensures
        j1 == j2,
{
    assert(s[j1].coherent());
    assert(s[j2].coherent());
    assert(s[j1].id == s[j2].id);
}

/// The index edges contributed by entity `i`'s import references `deps`,
/// in reference order.
pub open spec fn edges_for_deps(s: Seq<EntityModel>, i: int, deps: Seq<ImportModel>) -> Seq<
    (usize, usize),
>
    decreases deps.len(),
{
    if deps.len() == 0 {
        Seq::empty()
    } else {
        let rest = edges_for_deps(s, i, deps.drop_last());
        match resolve_target(s, deps.last().path, deps.last().name) {
            Some(j) => rest.push((i as usize, j as usize)),
            None => rest,
        }
    }
}

/// All index edges of the first `n` table records, in record order.
pub open spec fn edges_upto(s: Seq<EntityModel>, n: int) -> Seq<(usize, usize)>
    decreases n,
{
    if n <= 0 {
        Seq::empty()
    } else {
        edges_upto(s, n - 1) + edges_for_deps(s, n - 1, s[n - 1].deps)
    }
}

/// All index edges of a table: entity `i` contributes one edge `(i, j)` for
/// each of its import references that resolves to table position `j`;
/// unresolved references contribute nothing.
pub open spec fn edges_of(s: Seq<EntityModel>) -> Seq<(usize, usize)> {
    edges_upto(s, s.len() as int)
}

/// A node/edge view of an entity table, immutable once constructed.
/// `edge_indices` holds each edge as a pair of node positions; `edges`
/// holds the same edges by node identity.
pub struct DependencyGraph {
    pub nodes: Vec<GraphNode>,
    pub edges: Vec<GraphEdge>,
    pub edge_indices: Vec<(usize, usize)>,
}

impl DependencyGraph {
    pub open spec fn wf(self) -> bool {
        &&& self.edges@.len() == self.edge_indices@.len()
        &&& forall|k: int|
            0 <= k < self.edge_indices@.len() ==> (#[trigger] self.edge_indices@[k]).0
                < self.nodes@.len() && self.edge_indices@[k].1 < self.nodes@.len()
        &&& forall|k: int|
            0 <= k < self.edge_indices@.len() ==> (#[trigger] self.edges@[k])@.source
                == self.nodes@[self.edge_indices@[k].0 as int]@.id && self.edges@[k]@.target
                == self.nodes@[self.edge_indices@[k].1 as int]@.id
        &&& forall|i: int, j: int|
            0 <= i < j < self.nodes@.len() ==> (#[trigger] self.nodes@[i])@.id
                != (#[trigger] self.nodes@[j])@.id
    }

    /// There is an edge from node position `a` to node position `b`.
    pub open spec fn has_edge(self, a: int, b: int) -> bool {
        exists|k: int|
            0 <= k < self.edge_indices@.len() && (#[trigger] self.edge_indices@[k]).0 == a
                && self.edge_indices@[k].1 == b
    }

    /// Builds the graph for a table: one node per record, in table order,
    /// and exactly the edges whose import references resolve.
    pub fn from_entities(table: &EntityTable) -> (g: DependencyGraph)
        requires
            table.wf(),
        ensures
            g.wf(),
            g.nodes@.len() == table.list().len(),
            forall|i: int|
                0 <= i < table.list().len() ==> (#[trigger] g.nodes@[i])@ == node_model_of(
                    table.list()[i],
                ),
            g.edge_indices@ == edges_of(table.list()),
    {
        let ghost s = table.list();
        proof {
            table.lemma_view_is_map_of_list();
        }
        let n = table.len();
        let mut nodes: Vec<GraphNode> = Vec::new();
        let mut i: usize = 0;
        while i < n
            invariant
                i <= n,
                n == s.len(),
                s == table.list(),
                table.wf(),
                nodes@.len() == i as int,
                forall|x: int| 0 <= x < i ==> (#[trigger] nodes@[x])@ == node_model_of(s[x]),
            decreases n - i,
        {
            let e = table.entity_at(i);
            nodes.push(
                GraphNode {
                    id: e.id.clone(),
                    name: e.name.clone(),
                    entity_type: String::from_str(e.entity_type.label()),
                    file: e.file_path.clone(),
                    kind: e.entity_type,
                },
            );
            i += 1;
        }
        let mut edges: Vec<GraphEdge> = Vec::new();
        let mut edge_indices: Vec<(usize, usize)> = Vec::new();
        let mut i: usize = 0;
        while i < n
            invariant
                i <= n,
                n == s.len(),
                s == table.list(),
                table.wf(),
                nodes@.len() == s.len(),
                forall|x: int| 0 <= x < s.len() ==> (#[trigger] nodes@[x])@ == node_model_of(s[x]),
                edge_indices@ == edges_upto(s, i as int),
                edges@.len() == edge_indices@.len(),
                forall|k: int|
                    0 <= k < edge_indices@.len() ==> (#[trigger] edge_indices@[k]).0 < s.len()
                        && edge_indices@[k].1 < s.len(),
                forall|k: int|
                    0 <= k < edge_indices@.len() ==> (#[trigger] edges@[k])@.source
                        == s[edge_indices@[k].0 as int].id && edges@[k]@.target
                        == s[edge_indices@[k].1 as int].id,
            decreases n - i,
        {
            let e = table.entity_at(i);
            let ghost deps = s[i as int].deps;
            let mut d: usize = 0;
            while d < e.deps.len()
                invariant
                    d <= e.deps.len(),
                    i < n,
                    n == s.len(),
                    s == table.list(),
                    table.wf(),
                    e@ == s[i as int],
                    e.deps@.len() == deps.len(),
                    deps == s[i as int].deps,
                    forall|x: int| 0 <= x < deps.len() ==> (#[trigger] e.deps@[x])@ == deps[x],
                    edge_indices@ == edges_upto(s, i as int) + edges_for_deps(
                        s,
                        i as int,
                        deps.take(d as int),
                    ),
                    edges@.len() == edge_indices@.len(),
                    forall|k: int|
                        0 <= k < edge_indices@.len() ==> (#[trigger] edge_indices@[k]).0 < s.len()
                            && edge_indices@[k].1 < s.len(),
                    forall|k: int|
                        0 <= k < edge_indices@.len() ==> (#[trigger] edges@[k])@.source
                            == s[edge_indices@[k].0 as int].id && edges@[k]@.target
                            == s[edge_indices@[k].1 as int].id,
                decreases e.deps.len() - d,
            {
                let dep = &e.deps[d];
                proof {
                    assert(deps.take(d as int + 1).drop_last() =~= deps.take(d as int));
                    assert(deps.take(d as int + 1).last() == deps[d as int]);
                    assert(dep@ == deps[d as int]);
                }
                match resolve_in_table(table, &dep.path, &dep.name) {
                    Some(j) => {
                        edges.push(
                            GraphEdge {
                                source: e.id.clone(),
                                target: table.entity_at(j).id.clone(),
                            },
                        );
                        edge_indices.push((i, j));
                    },
                    None => {
                    },
                }
                d += 1;
            }
            proof {
                assert(deps.take(e.deps.len() as int) =~= deps);
            }
            i += 1;
        }
        let g = DependencyGraph { nodes, edges, edge_indices };
        proof {
            assert(g.edge_indices@ == edges_of(s));
        }
        g
    }
}

/// The sources, in edge order, of the edges whose target is node `t`.
pub open spec fn sources_of(links: Seq<(usize, usize)>, t: int) -> Seq<usize>
    decreases links.len(),
{
    if links.len() == 0 {
        Seq::empty()
    } else {
        let rest = sources_of(links.drop_last(), t);
        if links.last().1 == t {
            rest.push(links.last().0)
        } else {
            rest
        }
    }
}

pub proof fn lemma_sources_of_contains(links: Seq<(usize, usize)>, t: int, x: usize)
    ensures
        sources_of(links, t).contains(x) <==> exists|k: int|
            0 <= k < links.len() && (#[trigger] links[k]).0 == x && links[k].1 == t,
    decreases links.len(),
{
    if links.len() > 0 {
        lemma_sources_of_contains(links.drop_last(), t, x);
        let rest = sources_of(links.drop_last(), t);
        let last = links.last();
        if last.1 == t && last.0 == x {
            assert(links[links.len() - 1].0 == x && links[links.len() - 1].1 == t);
            assert(rest.push(last.0)[rest.len() as int] == x);
            assert(sources_of(links, t).contains(x));
        }
        if sources_of(links, t).contains(x) && !(last.1 == t && last.0 == x) {
            if last.1 == t {
                let y = choose|y: int|
                    0 <= y < rest.push(last.0).len() && rest.push(last.0)[y] == x;
                assert(rest[y] == x);
                assert(rest.contains(x));
            } else {
                assert(rest.contains(x));
            }
            let k = choose|k: int|
                0 <= k < links.drop_last().len() && (#[trigger] links.drop_last()[k]).0 == x
                    && links.drop_last()[k].1 == t;
            assert(links[k].0 == x && links[k].1 == t);
        }
        if exists|k: int| 0 <= k < links.len() && (#[trigger] links[k]).0 == x && links[k].1 == t {
            let k = choose|k: int|
                0 <= k < links.len() && (#[trigger] links[k]).0 == x && links[k].1 == t;
            if k < links.len() - 1 {
                assert(links.drop_last()[k].0 == x && links.drop_last()[k].1 == t);
                assert(rest.contains(x));
                let y = choose|y: int| 0 <= y < rest.len() && rest[y] == x;
                if last.1 == t {
                    assert(rest.push(last.0)[y] == x);
                    assert(sources_of(links, t).contains(x));
                } else {
                    assert(sources_of(links, t).contains(x));
                }
            }
        }
    }
}

/// True when `id` is the view of one of the strings in `rs`.
pub open spec fn contains_id(rs: Seq<String>, id: Seq<char>) -> bool {
    exists|x: int| 0 <= x < rs.len() && rs[x]@ == id
}

/// `s` is the identity of one of `nodes`.
pub open spec fn is_node_id(nodes: Seq<GraphNode>, s: String) -> bool {
    exists|i: int| 0 <= i < nodes.len() && s@ == (#[trigger] nodes[i])@.id
}

/// Every string in `rs` is the identity of one of `nodes`.
pub open spec fn all_node_ids(rs: Seq<String>, nodes: Seq<GraphNode>) -> bool {
    forall|x: int| 0 <= x < rs.len() ==> is_node_id(nodes, #[trigger] rs[x])
}

/// True when one of the strings of `v` views to `s@`.
fn contains_string(v: &Vec<String>, s: &String) -> (r: bool)
    ensures
        r == contains_id(v@, s@),
{
    let mut x: usize = 0;
    while x < v.len()
        invariant
            x <= v@.len(),
            forall|y: int| 0 <= y < x ==> v@[y]@ != s@,
        decreases v@.len() - x,
    {
        if v[x] == *s {
            return true;
        }
        x += 1;
    }
    false
}

/// The number of set entries in a flag vector.
pub open spec fn count_true(s: Seq<bool>) -> int
    decreases s.len(),
{
    if s.len() == 0 {
        0
    } else {
        count_true(s.drop_last()) + if s.last() {
            1int
        } else {
            0int
        }
    }
}

proof fn lemma_count_true_bounds(s: Seq<bool>)
    ensures
        0 <= count_true(s) <= s.len(),
    decreases s.len(),
{
    if s.len() > 0 {
        lemma_count_true_bounds(s.drop_last());
    }
}

proof fn lemma_count_true_update(s: Seq<bool>, i: int)
    requires
        0 <= i < s.len(),
        !s[i],
    ensures
        count_true(s.update(i, true)) == count_true(s) + 1,
    decreases s.len(),
{
    if i == s.len() - 1 {
        assert(s.update(i, true).drop_last() =~= s.drop_last());
    } else {
        assert(s.update(i, true).drop_last() =~= s.drop_last().update(i, true));
        lemma_count_true_update(s.drop_last(), i);
    }
}

impl DependencyGraph {
    /// Node `i` is named as a target by one of the given identities.
    pub open spec fn is_target(self, i: int, tgts: Seq<String>) -> bool {
        contains_id(tgts, self.nodes@[i]@.id)
    }

    /// A forward walk along edges, every step in bounds.
    pub open spec fn consumer_path(self, p: Seq<int>) -> bool {
        &&& p.len() >= 1
        &&& forall|x: int| 0 <= x < p.len() ==> 0 <= #[trigger] p[x] < self.nodes@.len()
        &&& forall|x: int| 0 <= x < p.len() - 1 ==> self.has_edge(#[trigger] p[x], p[x + 1])
    }

    /// Node `i` reaches a target along one or more forward edges: it
    /// depends, directly or transitively, on a target.
    pub open spec fn reaches_target(self, i: int, tgts: Seq<String>) -> bool {
        exists|p: Seq<int>|
            #[trigger] self.consumer_path(p) && p.len() >= 2 && p[0] == i && self.is_target(
                p.last(),
                tgts,
            )
    }

    /// Node `i` has a single edge into a target.
    pub open spec fn has_edge_to_target(self, i: int, tgts: Seq<String>) -> bool {
        exists|j: int| 0 <= j < self.nodes@.len() && #[trigger] self.has_edge(i, j) && self.is_target(j, tgts)
    }

    /// The consumer relation reported by `find_consumers`: a non-target
    /// node whose import edges lead (in one hop, or transitively) to a
    /// target.
    pub open spec fn is_consumer(self, i: int, tgts: Seq<String>, transitive: bool) -> bool {
        &&& !self.is_target(i, tgts)
        &&& if transitive {
            self.reaches_target(i, tgts)
        } else {
            self.has_edge_to_target(i, tgts)
        }
    }

    /// The reverse index: entry `t` lists the sources, in edge order, of
    /// the edges whose target is node `t`.
    pub fn build_consumer_index(&self) -> (r: Vec<Vec<usize>>)
        requires
            self.wf(),
        ensures
            r@.len() == self.nodes@.len(),
            forall|t: int| 0 <= t < r@.len() ==> (#[trigger] r@[t])@ == sources_of(
                self.edge_indices@,
                t,
            ),
    {
        let n = self.nodes.len();
        let mut r: Vec<Vec<usize>> = Vec::new();
        let mut i: usize = 0;
        while i < n
            invariant
                i <= n,
                r@.len() == i as int,
                forall|t: int| 0 <= t < i ==> (#[trigger] r@[t])@ == Seq::<usize>::empty(),
            decreases n - i,
        {
            r.push(Vec::new());
            i += 1;
        }
        proof {
            assert forall|t: int| 0 <= t < r@.len() implies (#[trigger] r@[t])@ == sources_of(
                self.edge_indices@.take(0),
                t,
            ) by {
                assert(self.edge_indices@.take(0) =~= Seq::<(usize, usize)>::empty());
            }
        }
        let mut k: usize = 0;
        while k < self.edge_indices.len()
            invariant
                k <= self.edge_indices@.len(),
                self.wf(),
                n == self.nodes@.len(),
                r@.len() == n as int,
                forall|t: int| 0 <= t < r@.len() ==> (#[trigger] r@[t])@ == sources_of(
                    self.edge_indices@.take(k as int),
                    t,
                ),
            decreases self.edge_indices@.len() - k,
        {
            let (src, tgt) = self.edge_indices[k];
            let ghost r0 = r@;
            let mut bucket = r.remove(tgt);
            bucket.push(src);
            let ghost bview = bucket@;
            r.insert(tgt, bucket);
            proof {
                let links = self.edge_indices@;
                assert(links.take(k as int + 1).drop_last() =~= links.take(k as int));
                assert(links.take(k as int + 1).last() == links[k as int]);
                assert(r@.len() == r0.len());
                assert(r@[tgt as int]@ == r0[tgt as int]@.push(src));
                assert forall|t: int| 0 <= t < r@.len() implies (#[trigger] r@[t])@ == sources_of(
                    links.take(k as int + 1),
                    t,
                ) by {
                    if t != tgt {
                        assert(r@[t] == r0[t]);
                    }
                }
            }
            k += 1;
        }
        proof {
            assert(self.edge_indices@.take(self.edge_indices@.len() as int) =~= self.edge_indices@);
        }
        r
    }
    /// Walking a consumer path backwards out of an edge-closed visited set
    /// never leaves the set.
    proof fn lemma_closed_reach(self, visited: Seq<bool>, p: Seq<int>)
        requires
            visited.len() == self.nodes@.len(),
            forall|v: int, s: int|
                0 <= v < visited.len() && visited[v] && 0 <= s < visited.len()
                    && #[trigger] self.has_edge(s, v) ==> visited[s],
            self.consumer_path(p),
            visited[p.last()],
        ensures
            visited[p[0]],
        decreases p.len(),
    {
        if p.len() > 1 {
            let q = p.drop_first();
            assert(self.consumer_path(q)) by {
                assert(forall|x: int| 0 <= x < q.len() ==> q[x] == p[x + 1]);
                assert(forall|x: int|
                    0 <= x < q.len() - 1 ==> self.has_edge(#[trigger] q[x], q[x + 1]));
            }
            assert(q.last() == p.last());
            self.lemma_closed_reach(visited, q);
            assert(visited[p[1]]);
            assert(self.has_edge(p[0], p[1]));
        }
    }

    /// All entities that consume (depend on) the given target identities:
    /// direct consumers only, or — with `transitive` — everything from
    /// which some chain of import edges reaches a target. The targets
    /// themselves are excluded; each consumer's identity appears once.
    #[verifier::rlimit(40)]
    pub fn find_consumers(&self, target_ids: &Vec<String>, transitive: bool) -> (r: Vec<String>)
        requires
            self.wf(),
        ensures
            forall|i: int|
                0 <= i < self.nodes@.len() ==> (contains_id(
                    r@,
                    (#[trigger] self.nodes@[i])@.id,
                ) <==> self.is_consumer(i, target_ids@, transitive)),
            all_node_ids(r@, self.nodes@),
            forall|x: int, y: int| 0 <= x < y < r@.len() ==> r@[x]@ != r@[y]@,
    {
        let n = self.nodes.len();
        let ghost tgts = target_ids@;
        let mut tgt: Vec<bool> = Vec::new();
        let mut i: usize = 0;
        while i < n
            invariant
                i <= n,
                n == self.nodes@.len(),
                self.wf(),
                tgts == target_ids@,
                tgt@.len() == i as int,
                forall|x: int| 0 <= x < i ==> tgt@[x] == self.is_target(x, tgts),
            decreases n - i,
        {
            let b = contains_string(target_ids, &self.nodes[i].id);
            tgt.push(b);
            i += 1;
        }
        let mut visited: Vec<bool> = Vec::new();
        if transitive {
            let ci = self.build_consumer_index();
            let mut queue: Vec<usize> = Vec::new();
            let mut i: usize = 0;
            while i < n
                invariant
                    i <= n,
                    n == self.nodes@.len(),
                    tgt@.len() == n as int,
                    visited@.len() == i as int,
                    forall|x: int| 0 <= x < i ==> visited@[x] == tgt@[x],
                    forall|q: int| 0 <= q < queue@.len() ==> (#[trigger] queue@[q]) < i,
                    forall|x: int|
                        0 <= x < i ==> (visited@[x] <==> queue@.contains(x as usize)),
                decreases n - i,
            {
                let ghost q0 = queue@;
                visited.push(tgt[i]);
                if tgt[i] {
                    queue.push(i);
                    proof {
                        assert(queue@[queue@.len() - 1] == i as usize);
                    }
                }
                proof {
                    assert forall|x: int| 0 <= x < i + 1 implies (visited@[x] <==> queue@.contains(
                        x as usize,
                    )) by {
                        if x < i {
                            if q0.contains(x as usize) {
                                let q = choose|q: int| 0 <= q < q0.len() && q0[q] == x as usize;
                                assert(queue@[q] == x as usize);
                            }
                            if queue@.contains(x as usize) {
                                let q = choose|q: int|
                                    0 <= q < queue@.len() && queue@[q] == x as usize;
                                if q < q0.len() {
                                    assert(q0[q] == x as usize);
                                }
                            }
                        } else {
                            if !visited@[x] && queue@.contains(x as usize) {
                                let q = choose|q: int|
                                    0 <= q < queue@.len() && queue@[q] == x as usize;
                                if q < q0.len() {
                                    assert(q0[q] < i as usize);
                                }
                            }
                        }
                    }
                }
                i += 1;
            }
            proof {
                lemma_count_true_bounds(visited@);
            }
            let mut qhead: usize = 0;
            while qhead < queue.len()
                invariant
                    n == self.nodes@.len(),
                    self.wf(),
                    tgts == target_ids@,
                    tgt@.len() == n as int,
                    visited@.len() == n as int,
                    forall|x: int| 0 <= x < n ==> tgt@[x] == self.is_target(x, tgts),
                    ci@.len() == n as int,
                    forall|t: int|
                        0 <= t < n ==> (#[trigger] ci@[t])@ == sources_of(self.edge_indices@, t),
                    qhead <= queue@.len(),
                    forall|q: int| 0 <= q < queue@.len() ==> (#[trigger] queue@[q]) < n,
                    forall|x: int|
                        0 <= x < n ==> (visited@[x] <==> queue@.contains(x as usize)),
                    forall|x: int| 0 <= x < n ==> #[trigger] tgt@[x] ==> visited@[x],
                    forall|x: int|
                        0 <= x < n && #[trigger] visited@[x] ==> (self.is_target(x, tgts)
                            || self.reaches_target(x, tgts)),
                    forall|x: int, s: int|
                        0 <= x < qhead && 0 <= s < n && #[trigger] self.has_edge(
                            s,
                            queue@[x] as int,
                        ) ==> visited@[s],
                    count_true(visited@) <= n,
                decreases queue@.len() - qhead + n - count_true(visited@),
            {
                let cur = queue[qhead];
                proof {
                    assert(queue@.contains(queue@[qhead as int]));
                    assert(visited@[cur as int]);
                }
                let srcs = &ci[cur];
                proof {
                    assert forall|z: int| 0 <= z < srcs@.len() implies (#[trigger] srcs@[z])
                        < n as usize by {
                        assert(srcs@.contains(srcs@[z]));
                        lemma_sources_of_contains(self.edge_indices@, cur as int, srcs@[z]);
                        let k = choose|k: int|
                            0 <= k < self.edge_indices@.len()
                                && (#[trigger] self.edge_indices@[k]).0 == srcs@[z]
                                && self.edge_indices@[k].1 == cur as int;
                        assert(self.edge_indices@[k].0 < n);
                    }
                }
                let ghost qlen0 = queue@.len() as int;
                let ghost c0 = count_true(visited@);
                let mut y: usize = 0;
                while y < srcs.len()
                    invariant
                        n == self.nodes@.len(),
                        self.wf(),
                        tgts == target_ids@,
                        tgt@.len() == n as int,
                        visited@.len() == n as int,
                        forall|x: int| 0 <= x < n ==> tgt@[x] == self.is_target(x, tgts),
                        cur < n,
                        srcs@ == sources_of(self.edge_indices@, cur as int),
                        forall|z: int| 0 <= z < srcs@.len() ==> (#[trigger] srcs@[z]) < n as usize,
                        visited@[cur as int],
                        qhead < queue@.len(),
                        queue@[qhead as int] == cur,
                        forall|q: int| 0 <= q < queue@.len() ==> (#[trigger] queue@[q]) < n,
                        forall|x: int|
                            0 <= x < n ==> (visited@[x] <==> queue@.contains(x as usize)),
                        forall|x: int| 0 <= x < n ==> #[trigger] tgt@[x] ==> visited@[x],
                        forall|x: int|
                            0 <= x < n && #[trigger] visited@[x] ==> (self.is_target(x, tgts)
                                || self.reaches_target(x, tgts)),
                        forall|x: int, s: int|
                            0 <= x < qhead && 0 <= s < n && #[trigger] self.has_edge(
                                s,
                                queue@[x] as int,
                            ) ==> visited@[s],
                        count_true(visited@) <= n,
                        y <= srcs@.len(),
                        forall|z: int| 0 <= z < y ==> visited@[#[trigger] srcs@[z] as int],
                        queue@.len() - count_true(visited@) == qlen0 - c0,
                    decreases srcs@.len() - y,
                {
                    let sidx = srcs[y];
                    proof {
                        assert(srcs@.contains(srcs@[y as int]));
                        lemma_sources_of_contains(self.edge_indices@, cur as int, sidx);
                        let k = choose|k: int|
                            0 <= k < self.edge_indices@.len()
                                && (#[trigger] self.edge_indices@[k]).0 == sidx
                                && self.edge_indices@[k].1 == cur as int;
                        assert(self.edge_indices@[k].0 < n);
                        assert(self.has_edge(sidx as int, cur as int));
                    }
                    if !visited[sidx] {
                        let ghost v0 = visited@;
                        let ghost q1 = queue@;
                        visited[sidx] = true;
                        queue.push(sidx);
                        proof {
                            lemma_count_true_update(v0, sidx as int);
                            lemma_count_true_bounds(visited@);
                            assert(queue@[queue@.len() - 1] == sidx);
                            assert forall|x: int| 0 <= x < n implies (visited@[x]
                                <==> queue@.contains(x as usize)) by {
                                if x == sidx as int {
                                } else {
                                    assert(visited@[x] == v0[x]);
                                    if q1.contains(x as usize) {
                                        let q = choose|q: int|
                                            0 <= q < q1.len() && q1[q] == x as usize;
                                        assert(queue@[q] == x as usize);
                                    }
                                    if queue@.contains(x as usize) {
                                        let q = choose|q: int|
                                            0 <= q < queue@.len() && queue@[q] == x as usize;
                                        if q < q1.len() {
                                            assert(q1[q] == x as usize);
                                        } else {
                                            assert(queue@[q] == sidx);
                                        }
                                    }
                                }
                            }
                            if self.is_target(cur as int, tgts) {
                                let p = seq![sidx as int, cur as int];
                                assert(p.len() == 2 && p[0] == sidx as int && p[1] == cur as int);
                                assert(self.consumer_path(p));
                                assert(p.last() == cur as int);
                                assert(self.reaches_target(sidx as int, tgts));
                            } else {
                                assert(self.reaches_target(cur as int, tgts));
                                let pc = choose|p: Seq<int>|
                                    #[trigger] self.consumer_path(p) && p.len() >= 2 && p[0]
                                        == cur as int && self.is_target(p.last(), tgts);
                                let p = seq![sidx as int] + pc;
                                assert(p[0] == sidx as int);
                                assert(forall|x: int| 1 <= x < p.len() ==> p[x] == pc[x - 1]);
                                assert(self.consumer_path(p)) by {
                                    assert(forall|x: int|
                                        1 <= x < p.len() - 1 ==> self.has_edge(
                                            #[trigger] p[x],
                                            p[x + 1],
                                        ));
                                }
                                assert(p.last() == pc.last());
                                assert(self.reaches_target(sidx as int, tgts));
                            }
                        }
                    }
                    y += 1;
                }
                proof {
                    assert forall|s: int|
                        0 <= s < n && #[trigger] self.has_edge(s, cur as int) implies visited@[s] by {
                        lemma_sources_of_contains(self.edge_indices@, cur as int, s as usize);
                        assert(srcs@.contains(s as usize));
                        let z = choose|z: int| 0 <= z < srcs@.len() && srcs@[z] == s as usize;
                        assert(visited@[srcs@[z] as int]);
                    }
                }
                qhead += 1;
            }
            proof {
                assert forall|v: int, s: int|
                    0 <= v < n && visited@[v] && 0 <= s < n && #[trigger] self.has_edge(
                        s,
                        v,
                    ) implies visited@[s] by {
                    assert(queue@.contains(v as usize));
                    let x = choose|x: int| 0 <= x < queue@.len() && queue@[x] == v as usize;
                    assert(queue@[x] as int == v);
                }
            }
            let out = self.collect_flagged(&visited, &tgt);
            proof {
                assert forall|i: int|
                    0 <= i < n && self.is_consumer(i, tgts, true) implies visited@[i] by {
                    let p = choose|p: Seq<int>|
                        #[trigger] self.consumer_path(p) && p.len() >= 2 && p[0] == i
                            && self.is_target(p.last(), tgts);
                    assert(tgt@[p.last()]);
                    assert(visited@[p.last()]);
                    self.lemma_closed_reach(visited@, p);
                }
            }
            out
        } else {
            let mut i: usize = 0;
            while i < n
                invariant
                    i <= n,
                    n == self.nodes@.len(),
                    self.wf(),
                    tgts == target_ids@,
                    tgt@.len() == n as int,
                    visited@.len() == i as int,
                    forall|x: int| 0 <= x < n ==> tgt@[x] == self.is_target(x, tgts),
                    forall|x: int|
                        0 <= x < i ==> (visited@[x] <==> self.has_edge_to_target(x, tgts)),
                decreases n - i,
            {
                let mut found = false;
                let mut k: usize = 0;
                while k < self.edge_indices.len()
                    invariant
                        i < n,
                        n == self.nodes@.len(),
                        self.wf(),
                        tgts == target_ids@,
                        tgt@.len() == n as int,
                        forall|x: int| 0 <= x < n ==> tgt@[x] == self.is_target(x, tgts),
                        k <= self.edge_indices@.len(),
                        found <==> exists|z: int|
                            0 <= z < k && (#[trigger] self.edge_indices@[z]).0 == i as usize
                                && self.is_target(self.edge_indices@[z].1 as int, tgts),
                    decreases self.edge_indices@.len() - k,
                {
                    let (a, b) = self.edge_indices[k];
                    if a == i && tgt[b] {
                        found = true;
                        proof {
                            assert((#[trigger] self.edge_indices@[k as int]).0 == i as usize
                                && self.is_target(self.edge_indices@[k as int].1 as int, tgts));
                        }
                    }
                    k += 1;
                }
                proof {
                    if found {
                        let z = choose|z: int|
                            0 <= z < self.edge_indices@.len()
                                && (#[trigger] self.edge_indices@[z]).0 == i as usize
                                && self.is_target(self.edge_indices@[z].1 as int, tgts);
                        let j = self.edge_indices@[z].1 as int;
                        assert(self.has_edge(i as int, j));
                        assert(self.has_edge_to_target(i as int, tgts));
                    } else {
                        if self.has_edge_to_target(i as int, tgts) {
                            let j = choose|j: int|
                                0 <= j < self.nodes@.len() && #[trigger] self.has_edge(i as int, j)
                                    && self.is_target(j, tgts);
                            let k2 = choose|k2: int|
                                0 <= k2 < self.edge_indices@.len()
                                    && (#[trigger] self.edge_indices@[k2]).0 == i as int
                                    && self.edge_indices@[k2].1 == j;
                            assert((#[trigger] self.edge_indices@[k2]).0 == i as usize
                                && self.is_target(self.edge_indices@[k2].1 as int, tgts));
                        }
                    }
                }
                visited.push(found);
                i += 1;
            }
            let out = self.collect_flagged(&visited, &tgt);
            out
        }
    }

    /// Node `i`'s declaring file is one of the changed paths.
    pub open spec fn file_changed(self, i: int, changed: Seq<String>) -> bool {
        contains_id(changed, self.nodes@[i]@.file)
    }

    /// Node `i` reaches a changed node along one or more forward edges.
    pub open spec fn reaches_changed(self, i: int, changed: Seq<String>) -> bool {
        exists|p: Seq<int>|
            #[trigger] self.consumer_path(p) && p.len() >= 2 && p[0] == i && self.file_changed(
                p.last(),
                changed,
            )
    }

    /// Node `i` has a single edge into a changed node.
    pub open spec fn has_edge_to_changed(self, i: int, changed: Seq<String>) -> bool {
        exists|j: int|
            0 <= j < self.nodes@.len() && #[trigger] self.has_edge(i, j) && self.file_changed(
                j,
                changed,
            )
    }

    /// The affected set: a node whose own file changed, or a consumer —
    /// direct, or transitive when asked — of one that did.
    pub open spec fn is_affected(self, i: int, changed: Seq<String>, transitive: bool) -> bool {
        self.file_changed(i, changed) || if transitive {
            self.reaches_changed(i, changed)
        } else {
            self.has_edge_to_changed(i, changed)
        }
    }

    /// The identities of all entities affected by the changed files: the
    /// union of the entities declared in those files and their consumers,
    /// each identity once.
    pub fn affected_ids(&self, changed_files: &Vec<String>, transitive: bool) -> (r: Vec<String>)
        requires
            self.wf(),
        ensures
            forall|i: int|
                0 <= i < self.nodes@.len() ==> (contains_id(
                    r@,
                    (#[trigger] self.nodes@[i])@.id,
                ) <==> self.is_affected(i, changed_files@, transitive)),
            all_node_ids(r@, self.nodes@),
            forall|x: int, y: int| 0 <= x < y < r@.len() ==> r@[x]@ != r@[y]@,
    {
        let n = self.nodes.len();
        let ghost changed = changed_files@;
        let mut picked: Vec<bool> = Vec::new();
        let mut excluded: Vec<bool> = Vec::new();
        let mut i: usize = 0;
        while i < n
            invariant
                i <= n,
                n == self.nodes@.len(),
                self.wf(),
                changed == changed_files@,
                picked@.len() == i as int,
                excluded@.len() == i as int,
                forall|x: int| 0 <= x < i ==> picked@[x] == self.file_changed(x, changed),
                forall|x: int| 0 <= x < i ==> !excluded@[x],
            decreases n - i,
        {
            let b = contains_string(changed_files, &self.nodes[i].file);
            picked.push(b);
            excluded.push(false);
            i += 1;
        }
        let targets = self.collect_flagged(&picked, &excluded);
        proof {
            assert forall|j: int| 0 <= j < n implies (self.is_target(j, targets@)
                == self.file_changed(j, changed)) by {
                assert(contains_id(targets@, self.nodes@[j]@.id) <==> picked@[j]);
            }
        }
        let consumers = self.find_consumers(&targets, transitive);
        let mut out = targets;
        let ghost tgts0 = out@;
        let mut c: usize = 0;
        while c < consumers.len()
            invariant
                c <= consumers@.len(),
                out@ == tgts0 + consumers@.take(c as int),
            decreases consumers@.len() - c,
        {
            out.push(consumers[c].clone());
            proof {
                assert(out@ =~= tgts0 + consumers@.take(c as int + 1));
            }
            c += 1;
        }
        proof {
            assert(consumers@.take(consumers@.len() as int) =~= consumers@);
            assert(out@ == tgts0 + consumers@);
            let rr = out@;
            // membership in the concatenation splits over the two parts
            assert forall|id: Seq<char>| contains_id(rr, id) <==> (contains_id(tgts0, id)
                || contains_id(consumers@, id)) by {
                if contains_id(rr, id) {
                    let x = choose|x: int| 0 <= x < rr.len() && rr[x]@ == id;
                    if x < tgts0.len() {
                        assert(tgts0[x]@ == id);
                    } else {
                        assert(consumers@[x - tgts0.len()]@ == id);
                    }
                }
                if contains_id(tgts0, id) {
                    let x = choose|x: int| 0 <= x < tgts0.len() && tgts0[x]@ == id;
                    assert(rr[x]@ == id);
                }
                if contains_id(consumers@, id) {
                    let x = choose|x: int| 0 <= x < consumers@.len() && consumers@[x]@ == id;
                    assert(rr[tgts0.len() + x]@ == id);
                }
            }
            assert forall|i2: int| 0 <= i2 < n implies (contains_id(
                rr,
                (#[trigger] self.nodes@[i2])@.id,
            ) <==> self.is_affected(i2, changed, transitive)) by {
                if self.is_consumer(i2, targets@, transitive) {
                    if transitive && self.reaches_target(i2, targets@) {
                        let p = choose|p: Seq<int>|
                            #[trigger] self.consumer_path(p) && p.len() >= 2 && p[0] == i2
                                && self.is_target(p.last(), targets@);
                        assert(self.file_changed(p.last(), changed));
                        assert(self.reaches_changed(i2, changed));
                    }
                }
                if !self.file_changed(i2, changed) && transitive && self.reaches_changed(
                    i2,
                    changed,
                ) {
                    let p = choose|p: Seq<int>|
                        #[trigger] self.consumer_path(p) && p.len() >= 2 && p[0] == i2
                            && self.file_changed(p.last(), changed);
                    assert(self.is_target(p.last(), targets@));
                    assert(self.reaches_target(i2, targets@));
                }
            }
            assert(all_node_ids(rr, self.nodes@)) by {
                assert forall|x: int| 0 <= x < rr.len() implies is_node_id(
                    self.nodes@,
                    #[trigger] rr[x],
                ) by {
                    if x < tgts0.len() {
                        assert(tgts0[x] == rr[x]);
                        assert(is_node_id(self.nodes@, tgts0[x]));
                    } else {
                        assert(consumers@[x - tgts0.len()] == rr[x]);
                        assert(is_node_id(self.nodes@, consumers@[x - tgts0.len()]));
                    }
                }
            }
            assert forall|x: int, y: int| 0 <= x < y < rr.len() implies rr[x]@ != rr[y]@ by {
                if x < tgts0.len() && y >= tgts0.len() {
                    let cy = consumers@[y - tgts0.len()];
                    let i2 = choose|i2: int|
                        0 <= i2 < self.nodes@.len() && cy@ == (#[trigger] self.nodes@[i2])@.id;
                    assert(contains_id(consumers@, self.nodes@[i2]@.id));
                    assert(self.is_consumer(i2, targets@, transitive));
                    assert(!self.is_target(i2, targets@));
                    if rr[x]@ == rr[y]@ {
                        assert(tgts0[x]@ == self.nodes@[i2]@.id);
                        assert(contains_id(tgts0, self.nodes@[i2]@.id));
                    }
                } else if x >= tgts0.len() {
                    assert(consumers@[x - tgts0.len()]@ != consumers@[y - tgts0.len()]@);
                }
            }
        }
        out
    }

    /// Collects, in node order, the identities of the nodes that are
    /// flagged in `picked` and not flagged in `excluded`.
    fn collect_flagged(&self, picked: &Vec<bool>, excluded: &Vec<bool>) -> (r: Vec<String>)
        requires
            self.wf(),
            picked@.len() == self.nodes@.len(),
            excluded@.len() == self.nodes@.len(),
        ensures
            forall|i: int|
                0 <= i < self.nodes@.len() ==> (contains_id(
                    r@,
                    (#[trigger] self.nodes@[i])@.id,
                ) <==> (picked@[i] && !excluded@[i])),
            all_node_ids(r@, self.nodes@),
            forall|x: int, y: int| 0 <= x < y < r@.len() ==> r@[x]@ != r@[y]@,
    {
        let n = self.nodes.len();
        let mut out: Vec<String> = Vec::new();
        let ghost mut idxs: Seq<int> = Seq::empty();
        let mut i: usize = 0;
        while i < n
            invariant
                i <= n,
                n == self.nodes@.len(),
                self.wf(),
                picked@.len() == n as int,
                excluded@.len() == n as int,
                out@.len() == idxs.len(),
                forall|x: int|
                    0 <= x < idxs.len() ==> 0 <= #[trigger] idxs[x] < i,
                forall|x: int|
                    0 <= x < idxs.len() ==> (#[trigger] out@[x])@ == self.nodes@[idxs[x]]@.id,
                forall|x: int| 0 <= x < idxs.len() ==> picked@[#[trigger] idxs[x]],
                forall|x: int| 0 <= x < idxs.len() ==> !excluded@[#[trigger] idxs[x]],
                forall|x: int, y: int| 0 <= x < y < idxs.len() ==> idxs[x] != idxs[y],
                forall|ii: int|
                    0 <= ii < i && picked@[ii] && !excluded@[ii] ==> idxs.contains(ii),
            decreases n - i,
        {
            if picked[i] && !excluded[i] {
                out.push(self.nodes[i].id.clone());
                proof {
                    let idxs0 = idxs;
                    idxs = idxs.push(i as int);
                    assert(idxs[idxs.len() - 1] == i as int);
                    assert forall|ii: int|
                        0 <= ii < i + 1 && picked@[ii] && !excluded@[ii] implies idxs.contains(
                        ii,
                    ) by {
                        if ii < i {
                            assert(idxs0.contains(ii));
                            let x = choose|x: int| 0 <= x < idxs0.len() && idxs0[x] == ii;
                            assert(idxs[x] == ii);
                        } else {
                            assert(idxs[idxs.len() - 1] == ii);
                        }
                    }
                }
            } else {
                proof {
                    assert forall|ii: int|
                        0 <= ii < i + 1 && picked@[ii] && !excluded@[ii] implies idxs.contains(
                        ii,
                    ) by {
                        assert(ii < i);
                    }
                }
            }
            i += 1;
        }
        proof {
            assert forall|i2: int| 0 <= i2 < n implies (contains_id(
                out@,
                (#[trigger] self.nodes@[i2])@.id,
            ) <==> (picked@[i2] && !excluded@[i2])) by {
                if contains_id(out@, self.nodes@[i2]@.id) {
                    let x = choose|x: int|
                        0 <= x < out@.len() && (#[trigger] out@[x])@ == self.nodes@[i2]@.id;
                    assert(self.nodes@[idxs[x]]@.id == self.nodes@[i2]@.id);
                    assert(idxs[x] == i2);
                }
                if picked@[i2] && !excluded@[i2] {
                    assert(idxs.contains(i2));
                    let x = choose|x: int| 0 <= x < idxs.len() && idxs[x] == i2;
                    assert(out@[x]@ == self.nodes@[i2]@.id);
                }
            }
            assert forall|x: int| 0 <= x < out@.len() implies is_node_id(
                self.nodes@,
                #[trigger] out@[x],
            ) by {
                assert(0 <= idxs[x] < self.nodes@.len() && out@[x]@ == (self.nodes@[idxs[x]])@.id);
            }
            assert forall|x: int, y: int| 0 <= x < y < out@.len() implies out@[x]@ != out@[y]@ by {
                assert(self.nodes@[idxs[x]]@.id != self.nodes@[idxs[y]]@.id);
            }
        }
        out
    }
}

/// The table position declaring `name` in file `path`, if any.
fn resolve_in_table(table: &EntityTable, path: &String, name: &String) -> (r: Option<usize>)
    requires
        table.wf(),
    ensures
        match r {
            Some(j) => j < table.list().len() && resolve_target(table.list(), path@, name@)
                == Some(j as int),
            None => resolve_target(table.list(), path@, name@) is None,
        },
{
    proof {
        table.lemma_view_is_map_of_list();
    }
    let ghost s = table.list();
    let n = table.len();
    let mut j: usize = 0;
    while j < n
        invariant
            j <= n,
            n == s.len(),
            s == table.list(),
            table.wf(),
            forall|x: int| 0 <= x < j ==> !entity_matches(#[trigger] s[x], path@, name@),
        decreases n - j,
    {
        let e = table.entity_at(j);
        if e.file_path == *path && e.name == *name {
            proof {
                table.lemma_view_is_map_of_list();
                assert(entity_matches(s[j as int], path@, name@));
                let jj = choose|x: int|
                    0 <= x < s.len() && entity_matches(#[trigger] s[x], path@, name@);
                lemma_resolve_unique(s, jj, j as int);
            }
            return Some(j);
        }
        j += 1;
    }
    None
}

} // verus!
