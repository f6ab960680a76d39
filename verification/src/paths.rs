//! Path queries over the dependency graph: the shortest dependency chain
//! between two entities, and bounded enumeration of all simple chains.

use vstd::prelude::*;
use crate::graph::DependencyGraph;

verus! {

/// The number of assigned entries in a distance vector.
pub open spec fn count_some(s: Seq<Option<usize>>) -> int
    decreases s.len(),
{
    if s.len() == 0 {
        0
    } else {
        count_some(s.drop_last()) + if s.last() is Some {
            1int
        } else {
            0int
        }
    }
}

proof fn lemma_count_some_none(s: Seq<Option<usize>>)
    requires
        forall|v: int| 0 <= v < s.len() ==> (#[trigger] s[v]) is None,
    ensures
        count_some(s) == 0,
    decreases s.len(),
{
    if s.len() > 0 {
        lemma_count_some_none(s.drop_last());
    }
}

proof fn lemma_count_some_bounds(s: Seq<Option<usize>>)
    ensures
        0 <= count_some(s) <= s.len(),
    decreases s.len(),
{
    if s.len() > 0 {
        lemma_count_some_bounds(s.drop_last());
    }
}

proof fn lemma_count_some_update(s: Seq<Option<usize>>, i: int, v: usize)
    requires
        0 <= i < s.len(),
        s[i] is None,
    ensures
        count_some(s.update(i, Some(v))) == count_some(s) + 1,
    decreases s.len(),
{
    if i == s.len() - 1 {
        assert(s.update(i, Some(v)).drop_last() =~= s.drop_last());
    } else {
        assert(s.update(i, Some(v)).drop_last() =~= s.drop_last().update(i, Some(v)));
        lemma_count_some_update(s.drop_last(), i, v);
    }
}

impl DependencyGraph {
    /// A forward walk along edges over `usize` node positions.
    pub open spec fn edge_path_u(self, p: Seq<usize>) -> bool {
        &&& p.len() >= 1
        &&& forall|x: int| 0 <= x < p.len() ==> (#[trigger] p[x]) < self.nodes@.len()
        &&& forall|x: int|
            0 <= x < p.len() - 1 ==> self.has_edge(#[trigger] p[x] as int, p[x + 1] as int)
    }

    /// Every discovered node's forward edges lead to discovered nodes, at
    /// a distance at most one greater.
    pub open spec fn bfs_closed(self, dist: Seq<Option<usize>>) -> bool {
        forall|v: int, w: int|
            0 <= v < dist.len() && 0 <= w < dist.len() && dist[v] is Some && #[trigger] self.has_edge(
                v,
                w,
            ) ==> dist[w] is Some && dist[w]->0 <= dist[v]->0 + 1
    }

    /// Any path out of `start` ends at a discovered node, no farther than
    /// the path's own edge count.
    proof fn lemma_bfs_lower_bound(self, dist: Seq<Option<usize>>, p: Seq<int>, start: usize)
        requires
            dist.len() == self.nodes@.len(),
            self.bfs_closed(dist),
            start < self.nodes@.len(),
            dist[start as int] == Some(0usize),
            self.consumer_path(p),
            p[0] == start as int,
        ensures
            dist[p.last()] is Some,
            dist[p.last()]->0 <= p.len() - 1,
        decreases p.len(),
    {
        if p.len() == 1 {
        } else {
            let q = p.drop_last();
            assert(self.consumer_path(q)) by {
                assert(forall|x: int| 0 <= x < q.len() ==> q[x] == p[x]);
                assert(forall|x: int|
                    0 <= x < q.len() - 1 ==> self.has_edge(#[trigger] q[x], q[x + 1]));
            }
            self.lemma_bfs_lower_bound(dist, q, start);
            assert(self.has_edge(p[p.len() - 2], p[p.len() - 1]));
        }
    }

    /// The shortest dependency chain from `start` to `end`, by
    /// breadth-first search over the forward edges: the returned node
    /// sequence includes both endpoints and no strictly shorter chain
    /// exists; `None` exactly when `end` is unreachable from `start`.
    #[verifier::rlimit(100)]
    pub fn find_path(&self, start: usize, end: usize) -> (r: Option<Vec<usize>>)
        requires
            self.wf(),
            start < self.nodes@.len(),
            end < self.nodes@.len(),
        ensures
            match r {
                Some(p) => {
                    &&& self.edge_path_u(p@)
                    &&& p@[0] == start
                    &&& p@.last() == end
                    &&& forall|q: Seq<int>|
                        #[trigger] self.consumer_path(q) && q[0] == start as int && q.last()
                            == end as int ==> q.len() >= p@.len()
                },
                None => forall|q: Seq<int>|
                    !(#[trigger] self.consumer_path(q) && q[0] == start as int && q.last()
                        == end as int),
            },
    {
        let n = self.nodes.len();
        if start == end {
            let mut p: Vec<usize> = Vec::new();
            p.push(start);
            proof {
                assert(p@.len() == 1 && p@[0] == start);
            }
            return Some(p);
        }
        let mut dist: Vec<Option<usize>> = Vec::new();
        let mut parent: Vec<usize> = Vec::new();
        let mut i: usize = 0;
        while i < n
            invariant
                i <= n,
                dist@.len() == i as int,
                parent@.len() == i as int,
                forall|v: int| 0 <= v < i ==> (#[trigger] dist@[v]) is None,
            decreases n - i,
        {
            dist.push(None);
            parent.push(0);
            i += 1;
        }
        let ghost dist_init = dist@;
        dist[start] = Some(0);
        proof {
            lemma_count_some_none(dist_init);
            lemma_count_some_update(dist_init, start as int, 0);
            lemma_count_some_bounds(dist@);
            assert(count_some(dist@) == 1);
        }
        let mut frontier: Vec<usize> = Vec::new();
        frontier.push(start);
        proof {
            assert(frontier@[0] == start);
            assert forall|v: int|
                0 <= v < n implies ((#[trigger] dist@[v]) == Some(0usize) <==> frontier@.contains(
                v as usize,
            )) by {
                if frontier@.contains(v as usize) {
                    let x = choose|x: int| 0 <= x < frontier@.len() && frontier@[x] == v as usize;
                    assert(x == 0);
                }
            }
        }
        let mut d: usize = 0;
        while frontier.len() > 0
            invariant
                n == self.nodes@.len(),
                self.wf(),
                start < n,
                end < n,
                start != end,
                frontier@.len() > 0 ==> d < count_some(dist@),
                dist@.len() == n as int,
                parent@.len() == n as int,
                dist@[start as int] == Some(0usize),
                forall|v: int| 0 <= v < n && #[trigger] dist@[v] is Some ==> dist@[v]->0 <= d,
                forall|v: int|
                    0 <= v < n && #[trigger] dist@[v] == Some(0usize) ==> v == start as int,
                forall|v: int|
                    0 <= v < n && #[trigger] dist@[v] is Some && dist@[v]->0 >= 1 ==> parent@[v]
                        < n && dist@[parent@[v] as int] is Some && dist@[parent@[v] as int]->0
                        == dist@[v]->0 - 1 && self.has_edge(parent@[v] as int, v),
                forall|v: int|
                    0 <= v < n ==> ((#[trigger] dist@[v]) == Some(d) <==> frontier@.contains(
                        v as usize,
                    )),
                forall|f: int| 0 <= f < frontier@.len() ==> (#[trigger] frontier@[f]) < n,
                forall|v: int, w: int|
                    0 <= v < n && 0 <= w < n && dist@[v] is Some && dist@[v]->0 < d
                        && #[trigger] self.has_edge(v, w) ==> dist@[w] is Some && dist@[w]->0
                        <= dist@[v]->0 + 1,
                count_some(dist@) <= n,
            decreases n - count_some(dist@), frontier@.len(),
        {
            let mut next: Vec<usize> = Vec::new();
            let ghost c_round = count_some(dist@);
            proof {
                assert forall|v: int|
                    0 <= v < n implies ((#[trigger] dist@[v]) == Some((d + 1) as usize)
                    <==> next@.contains(v as usize)) by {
                    if dist@[v] is Some {
                        assert(dist@[v]->0 <= d);
                    }
                }
            }
            let mut f: usize = 0;
            while f < frontier.len()
                invariant
                    n == self.nodes@.len(),
                    self.wf(),
                    start < n,
                    end < n,
                    start != end,
                    d < c_round,
                    f <= frontier@.len(),
                    dist@.len() == n as int,
                    parent@.len() == n as int,
                    dist@[start as int] == Some(0usize),
                    forall|v: int|
                        0 <= v < n && #[trigger] dist@[v] is Some ==> dist@[v]->0 <= d + 1,
                    forall|v: int|
                        0 <= v < n && #[trigger] dist@[v] == Some(0usize) ==> v == start as int,
                    forall|v: int|
                        0 <= v < n && #[trigger] dist@[v] is Some && dist@[v]->0 >= 1 ==> parent@[v]
                            < n && dist@[parent@[v] as int] is Some && dist@[parent@[v] as int]->0
                            == dist@[v]->0 - 1 && self.has_edge(parent@[v] as int, v),
                    forall|v: int|
                        0 <= v < n && (#[trigger] dist@[v]) == Some(d) ==> frontier@.contains(
                            v as usize,
                        ),
                    forall|ff: int|
                        0 <= ff < frontier@.len() ==> (#[trigger] frontier@[ff]) < n
                            && dist@[frontier@[ff] as int] == Some(d),
                    forall|v: int|
                        0 <= v < n ==> ((#[trigger] dist@[v]) == Some((d + 1) as usize)
                            <==> next@.contains(v as usize)),
                    forall|x: int| 0 <= x < next@.len() ==> (#[trigger] next@[x]) < n,
                    forall|v: int, w: int|
                        0 <= v < n && 0 <= w < n && dist@[v] is Some && dist@[v]->0 < d
                            && #[trigger] self.has_edge(v, w) ==> dist@[w] is Some && dist@[w]->0
                            <= dist@[v]->0 + 1,
                    forall|ff: int, w: int|
                        0 <= ff < f && 0 <= w < n && #[trigger] self.has_edge(
                            frontier@[ff] as int,
                            w,
                        ) ==> dist@[w] is Some && dist@[w]->0 <= d + 1,
                    count_some(dist@) <= n,
                    count_some(dist@) == c_round + next@.len(),
                decreases frontier@.len() - f,
            {
                let u = frontier[f];
                let mut k: usize = 0;
                while k < self.edge_indices.len()
                    invariant
                        n == self.nodes@.len(),
                        self.wf(),
                        start < n,
                        end < n,
                        start != end,
                        d < c_round,
                        f < frontier@.len(),
                        u == frontier@[f as int],
                        u < n,
                        k <= self.edge_indices@.len(),
                        dist@.len() == n as int,
                        parent@.len() == n as int,
                        dist@[start as int] == Some(0usize),
                        dist@[u as int] == Some(d),
                        forall|v: int|
                            0 <= v < n && #[trigger] dist@[v] is Some ==> dist@[v]->0 <= d + 1,
                        forall|v: int|
                            0 <= v < n && #[trigger] dist@[v] == Some(0usize) ==> v == start as int,
                        forall|v: int|
                            0 <= v < n && #[trigger] dist@[v] is Some && dist@[v]->0 >= 1
                                ==> parent@[v] < n && dist@[parent@[v] as int] is Some
                                && dist@[parent@[v] as int]->0 == dist@[v]->0 - 1 && self.has_edge(
                                parent@[v] as int,
                                v,
                            ),
                        forall|v: int|
                            0 <= v < n && (#[trigger] dist@[v]) == Some(d) ==> frontier@.contains(
                                v as usize,
                            ),
                        forall|ff: int|
                            0 <= ff < frontier@.len() ==> (#[trigger] frontier@[ff]) < n
                                && dist@[frontier@[ff] as int] == Some(d),
                        forall|v: int|
                            0 <= v < n ==> ((#[trigger] dist@[v]) == Some((d + 1) as usize)
                                <==> next@.contains(v as usize)),
                        forall|x: int| 0 <= x < next@.len() ==> (#[trigger] next@[x]) < n,
                        forall|v: int, w: int|
                            0 <= v < n && 0 <= w < n && dist@[v] is Some && dist@[v]->0
                                < d && #[trigger] self.has_edge(v, w) ==> dist@[w] is Some
                                && dist@[w]->0 <= dist@[v]->0 + 1,
                        forall|ff: int, w: int|
                            0 <= ff < f && 0 <= w < n && #[trigger] self.has_edge(
                                frontier@[ff] as int,
                                w,
                            ) ==> dist@[w] is Some && dist@[w]->0 <= d + 1,
                        forall|w: int|
                            0 <= w < n && (exists|kk: int|
                                0 <= kk < k && (#[trigger] self.edge_indices@[kk]).0 == u
                                    && self.edge_indices@[kk].1 == w as usize) ==> dist@[w] is Some
                                && dist@[w]->0 <= d + 1,
                        count_some(dist@) <= n,
                        count_some(dist@) == c_round + next@.len(),
                    decreases self.edge_indices@.len() - k,
                {
                    let (a, b) = self.edge_indices[k];
                    if a == u {
                        proof {
                            assert(b < n);
                        }
                        if dist[b].is_none() {
                            let ghost dist0 = dist@;
                            let ghost next0 = next@;
                            dist[b] = Some(d + 1);
                            parent[b] = u;
                            next.push(b);
                            proof {
                                lemma_count_some_update(dist0, b as int, (d + 1) as usize);
                                lemma_count_some_bounds(dist@);
                                assert(next@[next@.len() - 1] == b);
                                assert forall|v: int|
                                    0 <= v < n implies ((#[trigger] dist@[v]) == Some(
                                    (d + 1) as usize,
                                ) <==> next@.contains(v as usize)) by {
                                    if v == b as int {
                                    } else {
                                        assert(dist@[v] == dist0[v]);
                                        if next0.contains(v as usize) {
                                            let x = choose|x: int|
                                                0 <= x < next0.len() && next0[x] == v as usize;
                                            assert(next@[x] == v as usize);
                                        }
                                        if next@.contains(v as usize) {
                                            let x = choose|x: int|
                                                0 <= x < next@.len() && next@[x] == v as usize;
                                            assert(x < next0.len());
                                            assert(next0[x] == v as usize);
                                        }
                                    }
                                }
                            }
                        }
                    }
                    proof {
                        assert forall|w: int|
                            0 <= w < n && (exists|kk: int|
                                0 <= kk < k + 1 && (#[trigger] self.edge_indices@[kk]).0 == u
                                    && self.edge_indices@[kk].1 == w as usize) implies dist@[w] is Some
                            && dist@[w]->0 <= d + 1 by {
                            let kk = choose|kk: int|
                                0 <= kk < k + 1 && (#[trigger] self.edge_indices@[kk]).0 == u
                                    && self.edge_indices@[kk].1 == w as usize;
                            if kk < k {
                            } else {
                                assert(w == b as int && a == u);
                            }
                        }
                    }
                    k += 1;
                }
                proof {
                    assert forall|w: int|
                        0 <= w < n && #[trigger] self.has_edge(u as int, w) implies dist@[w] is Some
                        && dist@[w]->0 <= d + 1 by {
                        let kk = choose|kk: int|
                            0 <= kk < self.edge_indices@.len()
                                && (#[trigger] self.edge_indices@[kk]).0 == u as int
                                && self.edge_indices@[kk].1 == w;
                        assert(self.edge_indices@[kk].0 == u
                            && self.edge_indices@[kk].1 == w as usize);
                    }
                }
                f += 1;
            }
            proof {
                assert forall|v: int, w: int|
                    0 <= v < n && 0 <= w < n && dist@[v] is Some && dist@[v]->0 < d + 1
                        && #[trigger] self.has_edge(v, w) implies dist@[w] is Some && dist@[w]->0
                    <= dist@[v]->0 + 1 by {
                    if dist@[v]->0 == d {
                        assert(frontier@.contains(v as usize));
                        let ff = choose|ff: int|
                            0 <= ff < frontier@.len() && frontier@[ff] == v as usize;
                        assert(self.has_edge(frontier@[ff] as int, w));
                    }
                }
                if next@.len() == 0 {
                    assert(forall|v: int|
                        0 <= v < n ==> (#[trigger] dist@[v]) != Some((d + 1) as usize));
                }
            }
            d += 1;
            frontier = next;
        }
        proof {
            assert(forall|v: int| 0 <= v < n ==> (#[trigger] dist@[v]) != Some(d));
            assert(self.bfs_closed(dist@)) by {
                assert forall|v: int, w: int|
                    0 <= v < dist@.len() && 0 <= w < dist@.len() && dist@[v] is Some
                        && #[trigger] self.has_edge(v, w) implies dist@[w] is Some && dist@[w]->0
                    <= dist@[v]->0 + 1 by {
                    assert(dist@[v]->0 != d);
                    assert(dist@[v]->0 < d);
                }
            }
        }
        if dist[end].is_none() {
            proof {
                assert forall|q: Seq<int>|
                    !(#[trigger] self.consumer_path(q) && q[0] == start as int && q.last()
                        == end as int) by {
                    if self.consumer_path(q) && q[0] == start as int && q.last() == end as int {
                        self.lemma_bfs_lower_bound(dist@, q, start);
                    }
                }
            }
            return None;
        }
        // walk the parent chain back from `end`, then reverse it
        let ghost kend = dist@[end as int]->0 as int;
        let mut rev: Vec<usize> = Vec::new();
        rev.push(end);
        let mut cur: usize = end;
        loop
            invariant
                n == self.nodes@.len(),
                self.wf(),
                start < n,
                end < n,
                dist@.len() == n as int,
                parent@.len() == n as int,
                dist@[end as int] is Some,
                kend == dist@[end as int]->0 as int,
                forall|v: int|
                    0 <= v < n && #[trigger] dist@[v] == Some(0usize) ==> v == start as int,
                forall|v: int|
                    0 <= v < n && #[trigger] dist@[v] is Some && dist@[v]->0 >= 1 ==> parent@[v]
                        < n && dist@[parent@[v] as int] is Some && dist@[parent@[v] as int]->0
                        == dist@[v]->0 - 1 && self.has_edge(parent@[v] as int, v),
                1 <= rev@.len() <= kend + 1,
                rev@[0] == end,
                cur == rev@.last(),
                cur < n,
                forall|x: int|
                    0 <= x < rev@.len() ==> (#[trigger] rev@[x]) < n && dist@[rev@[x] as int]
                        is Some && dist@[rev@[x] as int]->0 == kend - x,
                forall|x: int|
                    0 <= x < rev@.len() - 1 ==> self.has_edge(
                        rev@[x + 1] as int,
                        (#[trigger] rev@[x]) as int,
                    ),
            ensures
                rev@.len() >= 1,
                rev@[0] == end,
                cur == rev@.last(),
                dist@[cur as int] == Some(0usize),
                forall|x: int|
                    0 <= x < rev@.len() ==> (#[trigger] rev@[x]) < n && dist@[rev@[x] as int]
                        is Some && dist@[rev@[x] as int]->0 == kend - x,
                forall|x: int|
                    0 <= x < rev@.len() - 1 ==> self.has_edge(
                        rev@[x + 1] as int,
                        (#[trigger] rev@[x]) as int,
                    ),
            decreases kend + 1 - rev@.len(),
        {
            let kc = match dist[cur] {
                Some(kc) => kc,
                None => {
                    proof {
                        assert(false);
                    }
                    0
                },
            };
            if kc == 0 {
                break ;
            }
            cur = parent[cur];
            rev.push(cur);
        }
        proof {
            assert(dist@[rev@.last() as int]->0 == 0);
            assert(rev@.len() == kend + 1);
            assert(rev@.last() == start);
        }
        let mut p: Vec<usize> = Vec::new();
        let m = rev.len();
        let mut i: usize = 0;
        while i < m
            invariant
                m == rev@.len(),
                i <= m,
                p@.len() == i as int,
                forall|x: int| 0 <= x < i ==> (#[trigger] p@[x]) == rev@[m - 1 - x],
            decreases m - i,
        {
            p.push(rev[m - 1 - i]);
            i += 1;
        }
        proof {
            assert(p@[0] == rev@[m - 1] && p@.last() == rev@[0]);
            assert(self.edge_path_u(p@)) by {
                assert(forall|x: int| 0 <= x < p@.len() ==> (#[trigger] p@[x]) < n as usize);
                assert forall|x: int|
                    0 <= x < p@.len() - 1 implies self.has_edge(
                    (#[trigger] p@[x]) as int,
                    p@[x + 1] as int,
                ) by {
                    assert(p@[x] == rev@[m - 1 - x]);
                    assert(p@[x + 1] == rev@[m - 1 - (x + 1)]);
                    assert(self.has_edge(
                        rev@[(m - 2 - x) + 1] as int,
                        rev@[m - 2 - x] as int,
                    ));
                }
            }
            assert forall|q: Seq<int>|
                #[trigger] self.consumer_path(q) && q[0] == start as int && q.last()
                    == end as int implies q.len() >= p@.len() by {
                self.lemma_bfs_lower_bound(dist@, q, start);
            }
        }
        Some(p)
    }
}

/// The views of a list of index paths.
pub open spec fn views_of(s: Seq<Vec<usize>>) -> Seq<Seq<usize>> {
    Seq::new(s.len(), |i: int| s[i]@)
}

/// Copies an index vector.
pub(crate) fn copy_indices(v: &Vec<usize>) -> (r: Vec<usize>)
    ensures
        r@ == v@,
{
    let mut r: Vec<usize> = Vec::new();
    let mut i: usize = 0;
    while i < v.len()
        invariant
            i <= v@.len(),
            r@ == v@.take(i as int),
        decreases v@.len() - i,
    {
        r.push(v[i]);
        proof {
            assert(r@ =~= v@.take(i as int + 1));
        }
        i += 1;
    }
    proof {
        assert(v@.take(v@.len() as int) =~= v@);
    }
    r
}

/// Membership of an index in an index vector.
pub(crate) fn contains_index(v: &Vec<usize>, x: usize) -> (r: bool)
    ensures
        r == v@.contains(x),
{
    let mut i: usize = 0;
    while i < v.len()
        invariant
            i <= v@.len(),
            forall|j: int| 0 <= j < i ==> v@[j] != x,
        decreases v@.len() - i,
    {
        if v[i] == x {
            return true;
        }
        i += 1;
    }
    proof {
        if v@.contains(x) {
            let j = choose|j: int| 0 <= j < v@.len() && v@[j] == x;
            assert(v@[j] != x);
        }
    }
    false
}

/// One step of the bounded depth-first enumeration: the paths recorded,
/// and whether the budget cut the enumeration short. A finished simple
/// path ending at `end` is recorded if the budget allows; otherwise the
/// walk is extended along each edge, in edge order, to nodes not yet on
/// the path, while hops remain.
pub open spec fn dfs_visit(
    g: DependencyGraph,
    path: Seq<usize>,
    end: usize,
    depth_left: nat,
    max_paths: nat,
    acc: Seq<Seq<usize>>,
) -> (Seq<Seq<usize>>, bool)
    decreases depth_left, g.edge_indices@.len() + 1,
{
    if path.len() == 0 {
        (acc, false)
    } else if path.last() == end {
        if acc.len() < max_paths {
            (acc.push(path), false)
        } else {
            (acc, true)
        }
    } else if depth_left == 0 {
        (acc, false)
    } else {
        dfs_edges(g, path, end, depth_left, 0, max_paths, acc)
    }
}

/// The same enumeration, scanning the edge list from position `k` on.
pub open spec fn dfs_edges(
    g: DependencyGraph,
    path: Seq<usize>,
    end: usize,
    depth_left: nat,
    k: int,
    max_paths: nat,
    acc: Seq<Seq<usize>>,
) -> (Seq<Seq<usize>>, bool)
    decreases depth_left, g.edge_indices@.len() - k,
{
    if k < 0 || k >= g.edge_indices@.len() || depth_left == 0 || path.len() == 0 {
        (acc, false)
    } else {
        let e = g.edge_indices@[k];
        if e.0 == path.last() && !path.contains(e.1) {
            let (acc2, t2) = dfs_visit(
                g,
                path.push(e.1),
                end,
                (depth_left - 1) as nat,
                max_paths,
                acc,
            );
            let (acc3, t3) = dfs_edges(g, path, end, depth_left, k + 1, max_paths, acc2);
            (acc3, t2 || t3)
        } else {
            dfs_edges(g, path, end, depth_left, k + 1, max_paths, acc)
        }
    }
}

/// Everything the bounded enumeration records is a simple chain from the
/// walk's first node to `end`, within the hop bound; the budget is
/// respected, and the truncation signal is raised only when it is full.
pub proof fn lemma_dfs_visit_sound(
    g: DependencyGraph,
    path: Seq<usize>,
    end: usize,
    depth_left: nat,
    max_paths: nat,
    acc: Seq<Seq<usize>>,
)
    requires
        g.wf(),
        g.edge_path_u(path),
        path.no_duplicates(),
    ensures
        ({
            let (res, t) = dfs_visit(g, path, end, depth_left, max_paths, acc);
            &&& res.len() >= acc.len()
            &&& forall|x: int| 0 <= x < acc.len() ==> res[x] == acc[x]
            &&& forall|x: int|
                acc.len() <= x < res.len() ==> g.edge_path_u(#[trigger] res[x])
                    && res[x].no_duplicates() && res[x][0] == path[0] && res[x].last() == end
                    && res[x].len() <= path.len() + depth_left
            &&& acc.len() <= max_paths ==> res.len() <= max_paths
            &&& acc.len() <= max_paths && t ==> res.len() == max_paths
        }),
    decreases depth_left, g.edge_indices@.len() + 1,
{
    if path.len() == 0 {
    } else if path.last() == end {
        let (res, t) = dfs_visit(g, path, end, depth_left, max_paths, acc);
        if acc.len() < max_paths {
            assert(res[acc.len() as int] == path);
        }
    } else if depth_left == 0 {
    } else {
        lemma_dfs_edges_sound(g, path, end, depth_left, 0, max_paths, acc);
    }
}

pub proof fn lemma_dfs_edges_sound(
    g: DependencyGraph,
    path: Seq<usize>,
    end: usize,
    depth_left: nat,
    k: int,
    max_paths: nat,
    acc: Seq<Seq<usize>>,
)
    requires
        g.wf(),
        g.edge_path_u(path),
        path.no_duplicates(),
    ensures
        ({
            let (res, t) = dfs_edges(g, path, end, depth_left, k, max_paths, acc);
            &&& res.len() >= acc.len()
            &&& forall|x: int| 0 <= x < acc.len() ==> res[x] == acc[x]
            &&& forall|x: int|
                acc.len() <= x < res.len() ==> g.edge_path_u(#[trigger] res[x])
                    && res[x].no_duplicates() && res[x][0] == path[0] && res[x].last() == end
                    && res[x].len() <= path.len() + depth_left
            &&& acc.len() <= max_paths ==> res.len() <= max_paths
            &&& acc.len() <= max_paths && t ==> res.len() == max_paths
        }),
    decreases depth_left, g.edge_indices@.len() - k,
{
    if k < 0 || k >= g.edge_indices@.len() || depth_left == 0 || path.len() == 0 {
    } else {
        let e = g.edge_indices@[k];
        if e.0 == path.last() && !path.contains(e.1) {
            let path2 = path.push(e.1);
            assert(g.has_edge(e.0 as int, e.1 as int)) by {
                assert((#[trigger] g.edge_indices@[k]).0 == e.0 && g.edge_indices@[k].1 == e.1);
            }
            assert(g.edge_path_u(path2)) by {
                assert(forall|x: int| 0 <= x < path.len() ==> path2[x] == path[x]);
                assert(e.1 < g.nodes@.len());
                assert(path2[path2.len() - 2] == path.last() && path2[path2.len() - 1] == e.1);
                assert(forall|x: int|
                    0 <= x < path2.len() - 1 ==> g.has_edge(
                        #[trigger] path2[x] as int,
                        path2[x + 1] as int,
                    ));
            }
            assert(path2.no_duplicates()) by {
                assert forall|i: int, j: int|
                    0 <= i < path2.len() && 0 <= j < path2.len() && i != j implies path2[i]
                    != path2[j] by {
                    if i < path.len() && j < path.len() {
                    } else if j == path.len() {
                        assert(path2[i] == path[i]);
                        assert(path.contains(path[i]));
                    } else {
                        assert(path2[j] == path[j]);
                        assert(path.contains(path[j]));
                    }
                }
            }
            lemma_dfs_visit_sound(g, path2, end, (depth_left - 1) as nat, max_paths, acc);
            let (acc2, t2) = dfs_visit(g, path2, end, (depth_left - 1) as nat, max_paths, acc);
            lemma_dfs_edges_sound(g, path, end, depth_left, k + 1, max_paths, acc2);
        } else {
            lemma_dfs_edges_sound(g, path, end, depth_left, k + 1, max_paths, acc);
        }
    }
}

/// When the budget does not cut the enumeration short, every simple
/// chain that extends the current walk to `end` within the hop bound is
/// among the results.
pub proof fn lemma_dfs_visit_complete(
    g: DependencyGraph,
    path: Seq<usize>,
    end: usize,
    depth_left: nat,
    max_paths: nat,
    acc: Seq<Seq<usize>>,
    p: Seq<usize>,
)
    requires
        g.wf(),
        g.edge_path_u(path),
        path.no_duplicates(),
        g.edge_path_u(p),
        p.no_duplicates(),
        p.len() >= path.len(),
        p.take(path.len() as int) == path,
        p.last() == end,
        p.len() <= path.len() + depth_left,
    ensures
        ({
            let (res, t) = dfs_visit(g, path, end, depth_left, max_paths, acc);
            !t ==> res.contains(p)
        }),
    decreases depth_left, g.edge_indices@.len() + 1,
{
    if path.len() == 0 {
    } else if path.last() == end {
        assert(p == path) by {
            if p.len() > path.len() {
                assert(p[path.len() - 1] == path[path.len() - 1]);
                assert(p[path.len() - 1] == end);
                assert(p[p.len() - 1] == end);
                assert(false);
            }
            assert(p.take(path.len() as int) =~= p);
        }
        let (res, t) = dfs_visit(g, path, end, depth_left, max_paths, acc);
        if acc.len() < max_paths {
            assert(res[acc.len() as int] == path);
            assert(res.contains(p));
        }
    } else if depth_left == 0 {
        assert(p.take(path.len() as int) =~= p);
        assert(false);
    } else {
        assert(p.len() > path.len()) by {
            if p.len() == path.len() {
                assert(p.take(path.len() as int) =~= p);
            }
        }
        let v = p[path.len() as int];
        assert(p[path.len() - 1] == path.last());
        assert(g.has_edge(path.last() as int, v as int));
        lemma_dfs_edges_complete(g, path, end, depth_left, 0, max_paths, acc, p);
    }
}

pub proof fn lemma_dfs_edges_complete(
    g: DependencyGraph,
    path: Seq<usize>,
    end: usize,
    depth_left: nat,
    k: int,
    max_paths: nat,
    acc: Seq<Seq<usize>>,
    p: Seq<usize>,
)
    requires
        g.wf(),
        g.edge_path_u(path),
        path.no_duplicates(),
        g.edge_path_u(p),
        p.no_duplicates(),
        p.len() > path.len(),
        p.take(path.len() as int) == path,
        p.last() == end,
        p.len() <= path.len() + depth_left,
        path.last() != end,
        depth_left >= 1,
        0 <= k,
        exists|k2: int|
            k <= k2 < g.edge_indices@.len() && (#[trigger] g.edge_indices@[k2]).0 == path.last()
                && g.edge_indices@[k2].1 == p[path.len() as int],
    ensures
        ({
            let (res, t) = dfs_edges(g, path, end, depth_left, k, max_paths, acc);
            !t ==> res.contains(p)
        }),
    decreases depth_left, g.edge_indices@.len() - k,
{
    let v = p[path.len() as int];
    let k2w = choose|k2: int|
        k <= k2 < g.edge_indices@.len() && (#[trigger] g.edge_indices@[k2]).0 == path.last()
            && g.edge_indices@[k2].1 == v;
    assert(k < g.edge_indices@.len());
    let e = g.edge_indices@[k];
    assert(!path.contains(v)) by {
        if path.contains(v) {
            let x = choose|x: int| 0 <= x < path.len() && path[x] == v;
            assert(p[x] == path[x]);
            assert(p[x] == p[path.len() as int]);
            assert(x != path.len());
            assert(false);
        }
    }
    if e.0 == path.last() && !path.contains(e.1) {
        let path2 = path.push(e.1);
        assert(g.has_edge(e.0 as int, e.1 as int)) by {
            assert((#[trigger] g.edge_indices@[k]).0 == e.0 && g.edge_indices@[k].1 == e.1);
        }
        assert(g.edge_path_u(path2)) by {
            assert(forall|x: int| 0 <= x < path.len() ==> path2[x] == path[x]);
            assert(e.1 < g.nodes@.len());
            assert(path2[path2.len() - 2] == path.last() && path2[path2.len() - 1] == e.1);
            assert(forall|x: int|
                0 <= x < path2.len() - 1 ==> g.has_edge(
                    #[trigger] path2[x] as int,
                    path2[x + 1] as int,
                ));
        }
        assert(path2.no_duplicates()) by {
            assert forall|i: int, j: int|
                0 <= i < path2.len() && 0 <= j < path2.len() && i != j implies path2[i]
                != path2[j] by {
                if i < path.len() && j < path.len() {
                } else if j == path.len() {
                    assert(path2[i] == path[i]);
                    assert(path.contains(path[i]));
                } else {
                    assert(path2[j] == path[j]);
                    assert(path.contains(path[j]));
                }
            }
        }
        let (acc2, t2) = dfs_visit(g, path2, end, (depth_left - 1) as nat, max_paths, acc);
        lemma_dfs_visit_sound(g, path2, end, (depth_left - 1) as nat, max_paths, acc);
        if e.1 == v {
            assert(p.take(path2.len() as int) =~= path2) by {
                assert(forall|x: int| 0 <= x < path.len() ==> p.take(path2.len() as int)[x]
                    == path[x]);
                assert(p.take(path2.len() as int)[path.len() as int] == v);
            }
            lemma_dfs_visit_complete(g, path2, end, (depth_left - 1) as nat, max_paths, acc, p);
            let (acc3, t3) = dfs_edges(g, path, end, depth_left, k + 1, max_paths, acc2);
            lemma_dfs_edges_sound(g, path, end, depth_left, k + 1, max_paths, acc2);
            if !t2 && !t3 {
                let i = choose|i: int| 0 <= i < acc2.len() && acc2[i] == p;
                assert(acc3[i] == p);
                assert(acc3.contains(p));
            }
        } else {
            assert(k2w != k);
            lemma_dfs_edges_complete(g, path, end, depth_left, k + 1, max_paths, acc2, p);
            let (acc3, t3) = dfs_edges(g, path, end, depth_left, k + 1, max_paths, acc2);
        }
    } else {
        assert(k2w != k);
        lemma_dfs_edges_complete(g, path, end, depth_left, k + 1, max_paths, acc, p);
    }
}

/// More distinct qualifying chains than the budget force the enumeration
/// to stop at the budget: with over `max_paths` simple chains from
/// `start` to `end` within the hop bound, exactly `max_paths` are
/// returned and truncation is signalled.
pub proof fn lemma_enumeration_exceeding_budget_truncates(
    g: DependencyGraph,
    start: usize,
    end: usize,
    max_paths: nat,
    max_depth: nat,
    ps: Seq<Seq<usize>>,
)
    requires
        g.wf(),
        start < g.nodes@.len(),
        ps.no_duplicates(),
        ps.len() > max_paths,
        forall|i: int|
            0 <= i < ps.len() ==> g.edge_path_u(#[trigger] ps[i]) && ps[i].no_duplicates()
                && ps[i][0] == start && ps[i].last() == end && ps[i].len() <= max_depth + 1,
    ensures
        dfs_visit(g, seq![start], end, max_depth, max_paths, Seq::<Seq<usize>>::empty()).1,
        dfs_visit(g, seq![start], end, max_depth, max_paths, Seq::<Seq<usize>>::empty()).0.len()
            == max_paths,
{
    broadcast use vstd::seq_lib::seq_to_set_is_finite;

    let p0 = seq![start];
    assert(g.edge_path_u(p0)) by {
        assert(p0[0] == start);
    }
    assert(p0.no_duplicates());
    lemma_dfs_visit_sound(g, p0, end, max_depth, max_paths, Seq::<Seq<usize>>::empty());
    let (res, t) = dfs_visit(g, p0, end, max_depth, max_paths, Seq::<Seq<usize>>::empty());
    if !t {
        assert forall|i: int| 0 <= i < ps.len() implies res.contains(#[trigger] ps[i]) by {
            assert(ps[i].take(1) =~= p0);
            lemma_dfs_visit_complete(
                g,
                p0,
                end,
                max_depth,
                max_paths,
                Seq::<Seq<usize>>::empty(),
                ps[i],
            );
        }
        assert(ps.to_set().subset_of(res.to_set())) by {
            assert forall|x: Seq<usize>| ps.to_set().contains(x) implies res.to_set().contains(
                x,
            ) by {
                assert(ps.contains(x));
                let i = choose|i: int| 0 <= i < ps.len() && ps[i] == x;
                assert(res.contains(ps[i]));
            }
        }
        ps.unique_seq_to_set();
        res.lemma_cardinality_of_set();
        vstd::set_lib::lemma_len_subset(ps.to_set(), res.to_set());
        assert(ps.len() <= res.len());
        assert(false);
    }
}

impl DependencyGraph {
    /// The depth-first walk behind `find_all_paths`.
    fn dfs_all(
        &self,
        path: &mut Vec<usize>,
        end: usize,
        depth_left: usize,
        max_paths: usize,
        results: &mut Vec<Vec<usize>>,
    ) -> (t: bool)
        requires
            self.wf(),
            old(path)@.len() >= 1,
        ensures
            final(path)@ == old(path)@,
            (views_of(final(results)@), t) == dfs_visit(
                *self,
                old(path)@,
                end,
                depth_left as nat,
                max_paths as nat,
                views_of(old(results)@),
            ),
        decreases depth_left,
    {
        let u = path[path.len() - 1];
        if u == end {
            if results.len() < max_paths {
                let p = copy_indices(path);
                results.push(p);
                proof {
                    assert(views_of(results@) =~= views_of(old(results)@).push(old(path)@));
                }
                return false;
            } else {
                return true;
            }
        }
        if depth_left == 0 {
            return false;
        }
        let mut t = false;
        let mut k: usize = 0;
        let ghost acc0 = views_of(results@);
        let ghost path0 = path@;
        while k < self.edge_indices.len()
            invariant
                self.wf(),
                path@ == path0,
                path0.len() >= 1,
                path0.last() != end,
                depth_left >= 1,
                k <= self.edge_indices@.len(),
                dfs_edges(
                    *self,
                    path0,
                    end,
                    depth_left as nat,
                    0,
                    max_paths as nat,
                    acc0,
                ) == ({
                    let (acck, tk) = dfs_edges(
                        *self,
                        path0,
                        end,
                        depth_left as nat,
                        k as int,
                        max_paths as nat,
                        views_of(results@),
                    );
                    (acck, t || tk)
                }),
            decreases self.edge_indices@.len() - k,
        {
            let (a, b) = self.edge_indices[k];
            let ghost acc_k = views_of(results@);
            let ghost t_old = t;
            if a == path[path.len() - 1] && !contains_index(path, b) {
                path.push(b);
                let t2 = self.dfs_all(path, end, depth_left - 1, max_paths, results);
                let popped = path.pop();
                t = t || t2;
                proof {
                    assert(path@ =~= path0);
                    let (acc2, t2s) = dfs_visit(
                        *self,
                        path0.push(b),
                        end,
                        (depth_left - 1) as nat,
                        max_paths as nat,
                        acc_k,
                    );
                    assert(views_of(results@) == acc2 && t2 == t2s);
                    let (acc_next, t_next) = dfs_edges(
                        *self,
                        path0,
                        end,
                        depth_left as nat,
                        k as int + 1,
                        max_paths as nat,
                        acc2,
                    );
                    assert(dfs_edges(
                        *self,
                        path0,
                        end,
                        depth_left as nat,
                        k as int,
                        max_paths as nat,
                        acc_k,
                    ) == (acc_next, t2s || t_next));
                }
            } else {
                proof {
                    assert(dfs_edges(
                        *self,
                        path0,
                        end,
                        depth_left as nat,
                        k as int,
                        max_paths as nat,
                        acc_k,
                    ) == dfs_edges(
                        *self,
                        path0,
                        end,
                        depth_left as nat,
                        k as int + 1,
                        max_paths as nat,
                        acc_k,
                    ));
                }
            }
            k += 1;
        }
        proof {
            let (acck, tk) = dfs_edges(
                *self,
                path0,
                end,
                depth_left as nat,
                k as int,
                max_paths as nat,
                views_of(results@),
            );
            assert(acck == views_of(results@) && tk == false);
        }
        t
    }

    /// Enumerates simple dependency chains from `start` to `end` by
    /// depth-first search in edge order, visiting no node twice within one
    /// chain, following at most `max_depth` edges, and stopping once
    /// `max_paths` chains have been produced. The second component reports
    /// that the enumeration was cut short by the budget;
    /// `lemma_enumeration_exceeding_budget_truncates` shows it is raised,
    /// with exactly `max_paths` chains returned, whenever more qualifying
    /// chains exist than the budget allows.
    pub fn find_all_paths(&self, start: usize, end: usize, max_paths: usize, max_depth: usize) -> (r:
        (Vec<Vec<usize>>, bool))
        requires
            self.wf(),
            start < self.nodes@.len(),
        ensures
            (views_of(r.0@), r.1) == dfs_visit(
                *self,
                seq![start],
                end,
                max_depth as nat,
                max_paths as nat,
                Seq::<Seq<usize>>::empty(),
            ),
            r.0@.len() <= max_paths,
            r.1 ==> r.0@.len() == max_paths,
            forall|x: int|
                0 <= x < r.0@.len() ==> self.edge_path_u((#[trigger] r.0@[x])@)
                    && r.0@[x]@.no_duplicates() && r.0@[x]@[0] == start && r.0@[x]@.last() == end
                    && r.0@[x]@.len() <= max_depth + 1,
            !r.1 ==> forall|p: Seq<usize>|
                #[trigger] self.edge_path_u(p) && p.no_duplicates() && p[0] == start && p.last()
                    == end && p.len() <= max_depth + 1 ==> views_of(r.0@).contains(p),
    {
        let mut path: Vec<usize> = Vec::new();
        path.push(start);
        let mut results: Vec<Vec<usize>> = Vec::new();
        proof {
            assert(path@ =~= seq![start]);
            assert(views_of(results@) =~= Seq::<Seq<usize>>::empty());
            assert(self.edge_path_u(seq![start])) by {
                assert(seq![start][0] == start);
            }
            assert(seq![start].no_duplicates());
            lemma_dfs_visit_sound(
                *self,
                seq![start],
                end,
                max_depth as nat,
                max_paths as nat,
                Seq::<Seq<usize>>::empty(),
            );
        }
        let t = self.dfs_all(&mut path, end, max_depth, max_paths, &mut results);
        proof {
            assert(forall|x: int|
                0 <= x < results@.len() ==> views_of(results@)[x] == (#[trigger] results@[x])@);
            if !t {
                assert forall|p: Seq<usize>|
                    #[trigger] self.edge_path_u(p) && p.no_duplicates() && p[0] == start
                        && p.last() == end && p.len() <= max_depth + 1 implies views_of(
                    results@,
                ).contains(p) by {
                    assert(p.take(1) =~= seq![start]);
                    lemma_dfs_visit_complete(
                        *self,
                        seq![start],
                        end,
                        max_depth as nat,
                        max_paths as nat,
                        Seq::<Seq<usize>>::empty(),
                        p,
                    );
                }
            }
        }
        (results, t)
    }
}

} // verus!
