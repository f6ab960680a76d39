//! Bounded cycle detection: every simple dependency cycle is searched for
//! from its smallest node position, so each cycle is reported exactly
//! once, rotated to start at that node.

use vstd::prelude::*;
use crate::graph::DependencyGraph;
use crate::paths::{contains_index, copy_indices, views_of};

verus! {

/// Scans the edge list from `k` on, extending the stack `path` (rooted at
/// `path[0]`): an edge back to the root closes a cycle, which is recorded
/// if the budget allows; an edge to a larger, unvisited node extends the
/// walk while the hop bound allows.
pub open spec fn cyc_edges(
    g: DependencyGraph,
    path: Seq<usize>,
    max_depth: nat,
    k: int,
    max_cycles: nat,
    acc: Seq<Seq<usize>>,
) -> (Seq<Seq<usize>>, bool)
    decreases max_depth - path.len(), g.edge_indices@.len() - k,
{
    if k < 0 || k >= g.edge_indices@.len() || path.len() == 0 || path.len() > max_depth {
        (acc, false)
    } else {
        let e = g.edge_indices@[k];
        if e.0 == path.last() && e.1 == path[0] {
            if acc.len() < max_cycles {
                cyc_edges(g, path, max_depth, k + 1, max_cycles, acc.push(path))
            } else {
                let (acc2, t2) = cyc_edges(g, path, max_depth, k + 1, max_cycles, acc);
                (acc2, true)
            }
        } else if e.0 == path.last() && e.1 > path[0] && !path.contains(e.1) && path.len()
            < max_depth {
            let (acc2, t2) = cyc_edges(g, path.push(e.1), max_depth, 0, max_cycles, acc);
            let (acc3, t3) = cyc_edges(g, path, max_depth, k + 1, max_cycles, acc2);
            (acc3, t2 || t3)
        } else {
            cyc_edges(g, path, max_depth, k + 1, max_cycles, acc)
        }
    }
}

/// Searches from every node position in turn.
pub open spec fn cyc_roots(
    g: DependencyGraph,
    root: int,
    max_depth: nat,
    max_cycles: nat,
    acc: Seq<Seq<usize>>,
) -> (Seq<Seq<usize>>, bool)
    decreases g.nodes@.len() - root,
{
    if root < 0 || root >= g.nodes@.len() {
        (acc, false)
    } else {
        let (acc2, t2) = cyc_edges(g, seq![root as usize], max_depth, 0, max_cycles, acc);
        let (acc3, t3) = cyc_roots(g, root + 1, max_depth, max_cycles, acc2);
        (acc3, t2 || t3)
    }
}

/// Everything the cycle search records is a simple cycle of at most
/// `max_depth` edges whose first node is its strictly smallest; the
/// budget is respected.
pub proof fn lemma_cyc_edges_sound(
    g: DependencyGraph,
    path: Seq<usize>,
    max_depth: nat,
    k: int,
    max_cycles: nat,
    acc: Seq<Seq<usize>>,
)
    requires
        g.wf(),
        g.edge_path_u(path),
        path.no_duplicates(),
        forall|x: int| 1 <= x < path.len() ==> (#[trigger] path[x]) > path[0],
    ensures
        ({
            let (res, t) = cyc_edges(g, path, max_depth, k, max_cycles, acc);
            &&& res.len() >= acc.len()
            &&& forall|x: int| 0 <= x < acc.len() ==> res[x] == acc[x]
            &&& forall|x: int|
                acc.len() <= x < res.len() ==> g.edge_path_u(#[trigger] res[x])
                    && res[x].no_duplicates() && g.has_edge(
                    res[x].last() as int,
                    res[x][0] as int,
                ) && res[x].len() <= max_depth && (forall|y: int|
                    1 <= y < res[x].len() ==> (#[trigger] res[x][y]) > res[x][0])
            &&& acc.len() <= max_cycles ==> res.len() <= max_cycles
            &&& acc.len() <= max_cycles && t ==> res.len() == max_cycles
        }),
    decreases max_depth - path.len(), g.edge_indices@.len() - k,
{
    if k < 0 || k >= g.edge_indices@.len() || path.len() == 0 || path.len() > max_depth {
    } else {
        let e = g.edge_indices@[k];
        assert(g.has_edge(e.0 as int, e.1 as int)) by {
            assert((#[trigger] g.edge_indices@[k]).0 == e.0 && g.edge_indices@[k].1 == e.1);
        }
        if e.0 == path.last() && e.1 == path[0] {
            if acc.len() < max_cycles {
                lemma_cyc_edges_sound(g, path, max_depth, k + 1, max_cycles, acc.push(path));
                assert(acc.push(path)[acc.len() as int] == path);
            } else {
                lemma_cyc_edges_sound(g, path, max_depth, k + 1, max_cycles, acc);
            }
        } else if e.0 == path.last() && e.1 > path[0] && !path.contains(e.1) && path.len()
            < max_depth {
            let path2 = path.push(e.1);
            assert(g.edge_path_u(path2)) by {
                assert(forall|x: int| 0 <= x < path.len() ==> path2[x] == path[x]);
                assert(e.1 < g.nodes@.len());
                assert(path2[path2.len() - 2] == path.last() && path2[path2.len() - 1] == e.1);
                assert(forall|x: int|
                    0 <= x < path2.len() - 1 ==> g.has_edge(
                        #[trigger] path2[x] as int,
                        path2[x + 1] as int,
                    ));
            }
            assert(path2.no_duplicates()) by {
                assert forall|i: int, j: int|
                    0 <= i < path2.len() && 0 <= j < path2.len() && i != j implies path2[i]
                    != path2[j] by {
                    if i < path.len() && j < path.len() {
                    } else if j == path.len() {
                        assert(path2[i] == path[i]);
                        assert(path.contains(path[i]));
                    } else {
                        assert(path2[j] == path[j]);
                        assert(path.contains(path[j]));
                    }
                }
            }
            assert(forall|x: int| 1 <= x < path2.len() ==> (#[trigger] path2[x]) > path2[0]);
            lemma_cyc_edges_sound(g, path2, max_depth, 0, max_cycles, acc);
            let (acc2, t2) = cyc_edges(g, path2, max_depth, 0, max_cycles, acc);
            lemma_cyc_edges_sound(g, path, max_depth, k + 1, max_cycles, acc2);
        } else {
            lemma_cyc_edges_sound(g, path, max_depth, k + 1, max_cycles, acc);
        }
    }
}

pub proof fn lemma_cyc_roots_sound(
    g: DependencyGraph,
    root: int,
    max_depth: nat,
    max_cycles: nat,
    acc: Seq<Seq<usize>>,
)
    requires
        g.wf(),
    ensures
        ({
            let (res, t) = cyc_roots(g, root, max_depth, max_cycles, acc);
            &&& res.len() >= acc.len()
            &&& forall|x: int| 0 <= x < acc.len() ==> res[x] == acc[x]
            &&& forall|x: int|
                acc.len() <= x < res.len() ==> g.edge_path_u(#[trigger] res[x])
                    && res[x].no_duplicates() && g.has_edge(
                    res[x].last() as int,
                    res[x][0] as int,
                ) && res[x].len() <= max_depth && (forall|y: int|
                    1 <= y < res[x].len() ==> (#[trigger] res[x][y]) > res[x][0])
            &&& acc.len() <= max_cycles ==> res.len() <= max_cycles
            &&& acc.len() <= max_cycles && t ==> res.len() == max_cycles
        }),
    decreases g.nodes@.len() - root,
{
    if root < 0 || root >= g.nodes@.len() {
    } else {
        let p0 = seq![root as usize];
        assert(g.edge_path_u(p0)) by {
            assert(p0[0] == root as usize);
        }
        assert(p0.no_duplicates());
        lemma_cyc_edges_sound(g, p0, max_depth, 0, max_cycles, acc);
        let (acc2, t2) = cyc_edges(g, p0, max_depth, 0, max_cycles, acc);
        lemma_cyc_roots_sound(g, root + 1, max_depth, max_cycles, acc2);
    }
}

/// When the budget does not cut the search short, every simple cycle in
/// canonical rotation that extends the current stack is recorded.
pub proof fn lemma_cyc_edges_complete(
    g: DependencyGraph,
    path: Seq<usize>,
    max_depth: nat,
    k: int,
    max_cycles: nat,
    acc: Seq<Seq<usize>>,
    c: Seq<usize>,
)
    requires
        g.wf(),
        g.edge_path_u(c),
        c.no_duplicates(),
        g.has_edge(c.last() as int, c[0] as int),
        c.len() <= max_depth,
        forall|y: int| 1 <= y < c.len() ==> (#[trigger] c[y]) > c[0],
        1 <= path.len() <= c.len(),
        c.take(path.len() as int) == path,
        0 <= k,
        exists|k2: int|
            k <= k2 < g.edge_indices@.len() && (#[trigger] g.edge_indices@[k2]).0 == path.last()
                && g.edge_indices@[k2].1 == (if path.len() == c.len() {
                c[0]
            } else {
                c[path.len() as int]
            }),
    ensures
        ({
            let (res, t) = cyc_edges(g, path, max_depth, k, max_cycles, acc);
            !t ==> res.contains(c)
        }),
    decreases max_depth - path.len(), g.edge_indices@.len() - k,
{
    let target = if path.len() == c.len() {
        c[0]
    } else {
        c[path.len() as int]
    };
    let k2w = choose|k2: int|
        k <= k2 < g.edge_indices@.len() && (#[trigger] g.edge_indices@[k2]).0 == path.last()
            && g.edge_indices@[k2].1 == target;
    assert(k < g.edge_indices@.len());
    assert(path[0] == c[0]);
    assert(path.last() == c[path.len() - 1]);
    assert(g.edge_path_u(path)) by {
        assert(forall|x: int| 0 <= x < path.len() ==> path[x] == c[x]);
        assert(forall|x: int| 0 <= x < path.len() ==> (#[trigger] path[x]) < g.nodes@.len());
        assert(forall|x: int|
            0 <= x < path.len() - 1 ==> g.has_edge(#[trigger] path[x] as int, path[x + 1] as int));
    }
    assert(path.no_duplicates()) by {
        assert forall|i: int, j: int|
            0 <= i < path.len() && 0 <= j < path.len() && i != j implies path[i] != path[j] by {
            assert(path[i] == c[i] && path[j] == c[j]);
        }
    }
    let e = g.edge_indices@[k];
    if e.0 == path.last() && e.1 == path[0] {
        // a cycle closes here; it is `c` itself exactly when the stack is full
        if acc.len() < max_cycles {
            if path.len() == c.len() {
                assert(path =~= c);
                lemma_cyc_edges_sound(g, path, max_depth, k + 1, max_cycles, acc.push(path));
                let (res, t) = cyc_edges(g, path, max_depth, k + 1, max_cycles, acc.push(path));
                assert(acc.push(path)[acc.len() as int] == path);
                assert(res[acc.len() as int] == c);
                assert(res.contains(c));
            } else {
                assert(target > c[0]);
                assert(k2w != k);
                lemma_cyc_edges_complete(
                    g,
                    path,
                    max_depth,
                    k + 1,
                    max_cycles,
                    acc.push(path),
                    c,
                );
            }
        } else {
            // the budget is exhausted: the search reports truncation
        }
    } else if e.0 == path.last() && e.1 > path[0] && !path.contains(e.1) && path.len()
        < max_depth {
        let path2 = path.push(e.1);
        let (acc2, t2) = cyc_edges(g, path2, max_depth, 0, max_cycles, acc);
        if path.len() < c.len() && e.1 == target {
            assert(path2.len() <= c.len());
            assert(c.take(path2.len() as int) =~= path2) by {
                assert(forall|x: int| 0 <= x < path.len() ==> c.take(path2.len() as int)[x]
                    == path[x]);
                assert(c.take(path2.len() as int)[path.len() as int] == target);
            }
            assert(g.has_edge(c.last() as int, c[0] as int));
            if path2.len() == c.len() {
                assert(path2.last() == c.last());
                assert(g.has_edge(path2.last() as int, c[0] as int));
                let kc = choose|kc: int|
                    0 <= kc < g.edge_indices@.len()
                        && (#[trigger] g.edge_indices@[kc]).0 == path2.last()
                        && g.edge_indices@[kc].1 == c[0];
                lemma_cyc_edges_complete(g, path2, max_depth, 0, max_cycles, acc, c);
            } else {
                assert(path2.last() == c[path2.len() - 1]);
                assert(g.has_edge(c[path2.len() - 1] as int, c[path2.len() as int] as int));
                let kc = choose|kc: int|
                    0 <= kc < g.edge_indices@.len()
                        && (#[trigger] g.edge_indices@[kc]).0 == c[path2.len() - 1]
                        && g.edge_indices@[kc].1 == c[path2.len() as int];
                assert(g.edge_indices@[kc].0 == path2.last());
                lemma_cyc_edges_complete(g, path2, max_depth, 0, max_cycles, acc, c);
            }
            assert(forall|x: int| 1 <= x < path.len() ==> (#[trigger] path[x]) > path[0]);
            lemma_cyc_edges_sound(g, path, max_depth, k + 1, max_cycles, acc2);
            let (acc3, t3) = cyc_edges(g, path, max_depth, k + 1, max_cycles, acc2);
            if !t2 && !t3 {
                let i = choose|i: int| 0 <= i < acc2.len() && acc2[i] == c;
                assert(acc3[i] == c);
                assert(acc3.contains(c));
            }
        } else {
            assert(k2w != k) by {
                if k2w == k {
                    assert(e.1 == target);
                    if path.len() == c.len() {
                        assert(target == c[0] && e.1 > path[0]);
                    }
                }
            }
            lemma_cyc_edges_complete(g, path, max_depth, k + 1, max_cycles, acc2, c);
        }
    } else {
        assert(k2w != k) by {
            if k2w == k {
                assert(e.0 == path.last() && e.1 == target);
                if path.len() == c.len() {
                    assert(e.1 == path[0]);
                } else {
                    assert(e.1 == c[path.len() as int]);
                    assert(e.1 > c[0]);
                    assert(e.1 > path[0]);
                    assert(!path.contains(e.1)) by {
                        if path.contains(e.1) {
                            let x = choose|x: int| 0 <= x < path.len() && path[x] == e.1;
                            assert(c[x] == path[x]);
                            assert(c[x] == c[path.len() as int]);
                            assert(x != path.len());
                            assert(false);
                        }
                    }
                    assert(path.len() < c.len() <= max_depth);
                }
            }
        }
        lemma_cyc_edges_complete(g, path, max_depth, k + 1, max_cycles, acc, c);
    }
}

pub proof fn lemma_cyc_roots_complete(
    g: DependencyGraph,
    root: int,
    max_depth: nat,
    max_cycles: nat,
    acc: Seq<Seq<usize>>,
    c: Seq<usize>,
)
    requires
        g.wf(),
        g.edge_path_u(c),
        c.no_duplicates(),
        g.has_edge(c.last() as int, c[0] as int),
        c.len() <= max_depth,
        forall|y: int| 1 <= y < c.len() ==> (#[trigger] c[y]) > c[0],
        0 <= root <= c[0],
    ensures
        ({
            let (res, t) = cyc_roots(g, root, max_depth, max_cycles, acc);
            !t ==> res.contains(c)
        }),
    decreases g.nodes@.len() - root,
{
    assert(c[0] < g.nodes@.len());
    let p0 = seq![(root as usize)];
    let (acc2, t2) = cyc_edges(g, p0, max_depth, 0, max_cycles, acc);
    if root == c[0] {
        assert(c.take(1) =~= p0);
        assert(p0.last() == c[0]);
        let target = if 1 == c.len() {
            c[0]
        } else {
            c[1]
        };
        if c.len() == 1 {
            assert(g.has_edge(c[0] as int, c[0] as int));
        } else {
            assert(g.has_edge(c[0] as int, c[1] as int));
        }
        let kc = choose|kc: int|
            0 <= kc < g.edge_indices@.len() && (#[trigger] g.edge_indices@[kc]).0 == c[0]
                && g.edge_indices@[kc].1 == target;
        assert(g.edge_indices@[kc].0 == p0.last());
        lemma_cyc_edges_complete(g, p0, max_depth, 0, max_cycles, acc, c);
        lemma_cyc_roots_sound(g, root + 1, max_depth, max_cycles, acc2);
        let (res, t3) = cyc_roots(g, root + 1, max_depth, max_cycles, acc2);
        if !t2 && !t3 {
            let i = choose|i: int| 0 <= i < acc2.len() && acc2[i] == c;
            assert(res[i] == c);
            assert(res.contains(c));
        }
    } else {
        lemma_cyc_roots_complete(g, root + 1, max_depth, max_cycles, acc2, c);
    }
}

/// `b` is `a` rotated left by some amount.
pub open spec fn is_rotation(a: Seq<usize>, b: Seq<usize>) -> bool {
    exists|k: int| 0 <= k < a.len() && b == #[trigger] (a.skip(k) + a.take(k))
}

/// Rotation canonicalization: a simple cycle has exactly one rotation
/// that starts at its strictly smallest node, so two reported cycles that
/// are rotations of one another are the same sequence — each cycle is
/// reported once, never once per rotation.
pub proof fn lemma_canonical_rotation_unique(a: Seq<usize>, b: Seq<usize>)
    requires
        a.len() >= 1,
        is_rotation(a, b),
        forall|y: int| 1 <= y < a.len() ==> (#[trigger] a[y]) > a[0],
        forall|y: int| 1 <= y < b.len() ==> (#[trigger] b[y]) > b[0],
    ensures
        a == b,
{
    let k = choose|k: int| 0 <= k < a.len() && b == #[trigger] (a.skip(k) + a.take(k));
    if k == 0 {
        assert(a.skip(0) + a.take(0) =~= a);
    } else {
        assert(b.len() == a.len());
        assert(b[0] == a[k]);
        assert(a[k] > a[0]);
        let pos = a.len() - k;
        assert(b[pos as int] == a.take(k)[0]);
        assert(a.take(k)[0] == a[0]);
        assert(1 <= pos < b.len());
        assert(b[pos as int] > b[0]);
        assert(false);
    }
}

impl DependencyGraph {
    /// The stack walk behind `find_cycles`, from the root `path[0]`.
    fn cyc_search(
        &self,
        path: &mut Vec<usize>,
        max_depth: usize,
        max_cycles: usize,
        results: &mut Vec<Vec<usize>>,
    ) -> (t: bool)
        requires
            self.wf(),
            old(path)@.len() >= 1,
            old(path)@.len() <= max_depth + 1,
        ensures
            final(path)@ == old(path)@,
            (views_of(final(results)@), t) == cyc_edges(
                *self,
                old(path)@,
                max_depth as nat,
                0,
                max_cycles as nat,
                views_of(old(results)@),
            ),
        decreases max_depth + 1 - old(path)@.len(),
    {
        if path.len() > max_depth {
            return false;
        }
        let root = path[0];
        let last = path[path.len() - 1];
        let mut t = false;
        let mut k: usize = 0;
        let ghost acc0 = views_of(results@);
        let ghost path0 = path@;
        while k < self.edge_indices.len()
            invariant
                self.wf(),
                path@ == path0,
                old(path)@ == path0,
                path0.len() >= 1,
                path0.len() <= max_depth,
                root == path0[0],
                last == path0.last(),
                k <= self.edge_indices@.len(),
                cyc_edges(
                    *self,
                    path0,
                    max_depth as nat,
                    0,
                    max_cycles as nat,
                    acc0,
                ) == ({
                    let (acck, tk) = cyc_edges(
                        *self,
                        path0,
                        max_depth as nat,
                        k as int,
                        max_cycles as nat,
                        views_of(results@),
                    );
                    (acck, t || tk)
                }),
            decreases self.edge_indices@.len() - k,
        {
            let (a, b) = self.edge_indices[k];
            let ghost acc_k = views_of(results@);
            if a == last && b == root {
                if results.len() < max_cycles {
                    let p = copy_indices(path);
                    results.push(p);
                    proof {
                        assert(views_of(results@) =~= acc_k.push(path0));
                    }
                } else {
                    t = true;
                }
            } else if a == last && b > root && !contains_index(path, b) && path.len() < max_depth {
                path.push(b);
                let t2 = self.cyc_search(path, max_depth, max_cycles, results);
                let popped = path.pop();
                t = t || t2;
                proof {
                    assert(path@ =~= path0);
                    let (acc2, t2s) = cyc_edges(
                        *self,
                        path0.push(b),
                        max_depth as nat,
                        0,
                        max_cycles as nat,
                        acc_k,
                    );
                    assert(views_of(results@) == acc2 && t2 == t2s);
                }
            }
            k += 1;
        }
        proof {
            let (acck, tk) = cyc_edges(
                *self,
                path0,
                max_depth as nat,
                k as int,
                max_cycles as nat,
                views_of(results@),
            );
            assert(acck == views_of(results@) && tk == false);
        }
        t
    }

    /// Finds simple dependency cycles, each reported exactly once, rotated
    /// to start at its smallest node position: a cycle is closed when a
    /// forward edge returns to the node the walk started from, only cycles
    /// of at most `max_depth` edges are considered, and the search stops
    /// once `max_cycles` cycles are recorded. The second component reports
    /// that the search was cut short by the budget.
    pub fn find_cycles(&self, max_cycles: usize, max_depth: usize) -> (r: (Vec<Vec<usize>>, bool))
        requires
            self.wf(),
        ensures
            (views_of(r.0@), r.1) == cyc_roots(
                *self,
                0,
                max_depth as nat,
                max_cycles as nat,
                Seq::<Seq<usize>>::empty(),
            ),
            r.0@.len() <= max_cycles,
            r.1 ==> r.0@.len() == max_cycles,
            forall|x: int|
                0 <= x < r.0@.len() ==> self.edge_path_u((#[trigger] r.0@[x])@)
                    && r.0@[x]@.no_duplicates() && self.has_edge(
                    r.0@[x]@.last() as int,
                    r.0@[x]@[0] as int,
                ) && r.0@[x]@.len() <= max_depth && (forall|y: int|
                    1 <= y < r.0@[x]@.len() ==> (#[trigger] r.0@[x]@[y]) > r.0@[x]@[0]),
            forall|x: int, y: int|
                0 <= x < r.0@.len() && 0 <= y < r.0@.len() && is_rotation(
                    (#[trigger] r.0@[x])@,
                    (#[trigger] r.0@[y])@,
                ) ==> r.0@[x]@ == r.0@[y]@,
            !r.1 ==> forall|c: Seq<usize>|
                #[trigger] self.edge_path_u(c) && c.no_duplicates() && self.has_edge(
                    c.last() as int,
                    c[0] as int,
                ) && c.len() <= max_depth && (forall|y: int|
                    1 <= y < c.len() ==> (#[trigger] c[y]) > c[0]) ==> views_of(r.0@).contains(c),
    {
        let n = self.nodes.len();
        let mut results: Vec<Vec<usize>> = Vec::new();
        let mut t = false;
        proof {
            assert(views_of(results@) =~= Seq::<Seq<usize>>::empty());
        }
        let ghost empty_acc = Seq::<Seq<usize>>::empty();
        let mut root: usize = 0;
        while root < n
            invariant
                self.wf(),
                n == self.nodes@.len(),
                root <= n,
                cyc_roots(
                    *self,
                    0,
                    max_depth as nat,
                    max_cycles as nat,
                    empty_acc,
                ) == ({
                    let (accr, tr) = cyc_roots(
                        *self,
                        root as int,
                        max_depth as nat,
                        max_cycles as nat,
                        views_of(results@),
                    );
                    (accr, t || tr)
                }),
            decreases n - root,
        {
            let mut path: Vec<usize> = Vec::new();
            path.push(root);
            let ghost acc_r = views_of(results@);
            proof {
                assert(path@ =~= seq![root]);
            }
            let t2 = self.cyc_search(&mut path, max_depth, max_cycles, &mut results);
            t = t || t2;
            root += 1;
        }
        proof {
            let (accr, tr) = cyc_roots(
                *self,
                root as int,
                max_depth as nat,
                max_cycles as nat,
                views_of(results@),
            );
            assert(accr == views_of(results@) && tr == false);
            lemma_cyc_roots_sound(*self, 0, max_depth as nat, max_cycles as nat, empty_acc);
            assert(forall|x: int|
                0 <= x < results@.len() ==> views_of(results@)[x] == (#[trigger] results@[x])@);
            assert forall|x: int, y: int|
                0 <= x < results@.len() && 0 <= y < results@.len() && is_rotation(
                    (#[trigger] results@[x])@,
                    (#[trigger] results@[y])@,
                ) implies results@[x]@ == results@[y]@ by {
                lemma_canonical_rotation_unique(results@[x]@, results@[y]@);
            }
            if !t {
                assert forall|c: Seq<usize>|
                    #[trigger] self.edge_path_u(c) && c.no_duplicates() && self.has_edge(
                        c.last() as int,
                        c[0] as int,
                    ) && c.len() <= max_depth && (forall|y: int|
                        1 <= y < c.len() ==> (#[trigger] c[y]) > c[0]) implies views_of(
                    results@,
                ).contains(c) by {
                    lemma_cyc_roots_complete(
                        *self,
                        0,
                        max_depth as nat,
                        max_cycles as nat,
                        empty_acc,
                        c,
                    );
                }
            }
        }
        (results, t)
    }
}

} // verus!
