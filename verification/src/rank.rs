//! Degree-based ranking: every node of the filtered graph paired with its
//! out-degree, least-depended-first, ties broken by ascending name.

use vstd::prelude::*;
use vstd::multiset::Multiset;
use crate::entity::EntityType;
use crate::graph::{DependencyGraph, GraphNode};
use crate::strutil::{lemma_lex_refl, lemma_lex_total, lemma_lex_trans, lex_le};

verus! {

/// Whether the node at position `i` is part of the ranked graph.
pub open spec fn rank_included(g: DependencyGraph, i: int, filter: Option<EntityType>) -> bool {
    match filter {
        Option::None => true,
        Option::Some(k) => g.nodes@[i]@.kind == k,
    }
}

/// The number of edges, among the first `k`, from node `i` into included
/// nodes: the filter is applied to node inclusion before counting.
pub open spec fn out_degree_upto(
    g: DependencyGraph,
    i: int,
    filter: Option<EntityType>,
    k: int,
) -> int
    decreases k,
{
    if k <= 0 {
        0
    } else {
        out_degree_upto(g, i, filter, k - 1) + if g.edge_indices@[k - 1].0 == i as usize
            && rank_included(g, g.edge_indices@[k - 1].1 as int, filter) {
            1int
        } else {
            0int
        }
    }
}

/// Node `i`'s out-degree in the filtered graph.
pub open spec fn out_degree(g: DependencyGraph, i: int, filter: Option<EntityType>) -> int {
    out_degree_upto(g, i, filter, g.edge_indices@.len() as int)
}

/// A ranking entry is some included node paired with its out-degree.
pub open spec fn rank_entry_ok(
    g: DependencyGraph,
    filter: Option<EntityType>,
    e: (usize, GraphNode),
) -> bool {
    exists|i: int|
        0 <= i < g.nodes@.len() && #[trigger] rank_included(g, i, filter) && e.1@ == g.nodes@[i]@
            && e.0 == out_degree(g, i, filter)
}

/// The ranking order: ascending out-degree, ties by ascending name.
pub open spec fn rank_le(a: (usize, GraphNode), b: (usize, GraphNode)) -> bool {
    a.0 < b.0 || (a.0 == b.0 && lex_le(a.1@.name, b.1@.name))
}

pub proof fn lemma_rank_le_refl(a: (usize, GraphNode))
    ensures
        rank_le(a, a),
{
    lemma_lex_refl(a.1@.name);
}

pub proof fn lemma_rank_le_total(a: (usize, GraphNode), b: (usize, GraphNode))
    ensures
        rank_le(a, b) || rank_le(b, a),
{
    if a.0 == b.0 {
        lemma_lex_total(a.1@.name, b.1@.name);
    }
}

pub proof fn lemma_rank_le_trans(a: (usize, GraphNode), b: (usize, GraphNode), c: (usize,
    GraphNode))
    requires
        rank_le(a, b),
        rank_le(b, c),
    ensures
        rank_le(a, c),
{
    if a.0 == b.0 && b.0 == c.0 {
        lemma_lex_trans(a.1@.name, b.1@.name, c.1@.name);
    }
}

/// Selection sort in the ranking order; the result holds the same pairs.
fn sort_ranked(v: Vec<(usize, GraphNode)>) -> (r: Vec<(usize, GraphNode)>)
    ensures
        r@.to_multiset() == v@.to_multiset(),
        r@.len() == v@.len(),
        forall|i: int, j: int| 0 <= i < j < r@.len() ==> rank_le(#[trigger] r@[i], #[trigger] r@[j]),
{
    broadcast use vstd::seq_lib::group_to_multiset_ensures;
    broadcast use vstd::multiset::group_multiset_axioms;

    let mut src = v;
    let mut out: Vec<(usize, GraphNode)> = Vec::new();
    proof {
        assert(out@.to_multiset().add(src@.to_multiset()) =~= v@.to_multiset());
    }
    while src.len() > 0
        invariant
            out@.to_multiset().add(src@.to_multiset()) == v@.to_multiset(),
            out@.len() + src@.len() == v@.len(),
            forall|i: int, j: int|
                0 <= i < j < out@.len() ==> rank_le(#[trigger] out@[i], #[trigger] out@[j]),
            forall|x: int, y: int|
                0 <= x < out@.len() && 0 <= y < src@.len() ==> rank_le(
                    #[trigger] out@[x],
                    #[trigger] src@[y],
                ),
        decreases src@.len(),
    {
        let mut m: usize = 0;
        proof {
            lemma_rank_le_refl(src@[0]);
        }
        let mut j: usize = 1;
        while j < src.len()
            invariant
                src@.len() > 0,
                m < j,
                j <= src@.len(),
                forall|t: int| 0 <= t < j ==> rank_le(src@[m as int], #[trigger] src@[t]),
            decreases src@.len() - j,
        {
            let le = src[j].0 < src[m].0 || (src[j].0 == src[m].0 && crate::strutil::str_le(
                src[j].1.name.as_str(),
                src[m].1.name.as_str(),
            ));
            if le {
                proof {
                    assert(rank_le(src@[j as int], src@[m as int]));
                    assert forall|t: int| 0 <= t < j implies rank_le(
                        src@[j as int],
                        #[trigger] src@[t],
                    ) by {
                        lemma_rank_le_trans(src@[j as int], src@[m as int], src@[t]);
                    }
                    lemma_rank_le_refl(src@[j as int]);
                }
                m = j;
            } else {
                proof {
                    lemma_rank_le_total(src@[j as int], src@[m as int]);
                }
            }
            j += 1;
        }
        let ghost src0 = src@;
        let ghost out_pre = out@;
        let ghost e_m = src@[m as int];
        let e = src.remove(m);
        out.push(e);
        proof {
            broadcast use vstd::multiset::group_multiset_axioms;

            assert(m < src0.len());
            assert(out@ == out_pre.push(e_m));
            assert(out@[out@.len() - 1] == e_m);
            assert(src@ == src0.remove(m as int));
            vstd::seq_lib::to_multiset_remove::<(usize, GraphNode)>(src0, m as int);
            vstd::seq_lib::to_multiset_build::<(usize, GraphNode)>(out_pre, e_m);
            vstd::seq_lib::to_multiset_contains::<(usize, GraphNode)>(src0, e_m);
            assert(src0.contains(e_m));
            assert(src0.to_multiset().count(e_m) > 0);
            assert(out_pre.to_multiset().add(src0.to_multiset()) == v@.to_multiset());
            assert forall|x: (usize, GraphNode)| #[trigger] out@.to_multiset().add(
                src@.to_multiset(),
            ).count(x) == v@.to_multiset().count(x) by {
                assert(out@.to_multiset().count(x) == out_pre.to_multiset().count(x) + if x == e_m {
                    1int
                } else {
                    0int
                });
                assert(src@.to_multiset().count(x) == src0.to_multiset().count(x) - if x == e_m {
                    1int
                } else {
                    0int
                });
            }
            assert(out@.to_multiset().add(src@.to_multiset()) =~= v@.to_multiset());
            assert forall|x: int, y: int|
                0 <= x < out@.len() && 0 <= y < src@.len() implies rank_le(
                #[trigger] out@[x],
                #[trigger] src@[y],
            ) by {
                let src_y = src@[y];
                if y < m {
                    assert(src_y == src0[y]);
                } else {
                    assert(src_y == src0[y + 1]);
                }
                if x < out@.len() - 1 {
                    assert(rank_le(out@[x], e_m));
                    lemma_rank_le_trans(out@[x], e_m, src_y);
                }
            }
        }
    }
    proof {
        assert(src@.to_multiset() =~= Multiset::<(usize, GraphNode)>::empty());
        assert(out@.to_multiset() =~= v@.to_multiset());
    }
    out
}

impl DependencyGraph {
    /// Pairs every node of the filtered graph with its out-degree there,
    /// ordered ascending by degree — the least-depending entities first —
    /// with ties broken by ascending name.
    pub fn rank(&self, kind_filter: Option<EntityType>) -> (r: Vec<(usize, GraphNode)>)
        requires
            self.wf(),
        ensures
            forall|x: int|
                0 <= x < r@.len() ==> rank_entry_ok(*self, kind_filter, #[trigger] r@[x]),
            forall|i: int|
                0 <= i < self.nodes@.len() && rank_included(*self, i, kind_filter) ==> exists|
                    x: int,
                |
                    0 <= x < r@.len() && (#[trigger] r@[x]).1@ == #[trigger] self.nodes@[i]@,
            forall|x: int, y: int| 0 <= x < y < r@.len() ==> r@[x].1@.id != r@[y].1@.id,
            forall|x: int, y: int|
                0 <= x < y < r@.len() ==> rank_le(#[trigger] r@[x], #[trigger] r@[y]),
    {
        broadcast use vstd::seq_lib::group_to_multiset_ensures;
        broadcast use vstd::multiset::group_multiset_axioms;

        let n = self.nodes.len();
        let mut picked: Vec<(usize, GraphNode)> = Vec::new();
        let ghost mut idxs: Seq<int> = Seq::empty();
        let mut i: usize = 0;
        while i < n
            invariant
                i <= n,
                n == self.nodes@.len(),
                self.wf(),
                picked@.len() == idxs.len(),
                forall|x: int| 0 <= x < idxs.len() ==> 0 <= #[trigger] idxs[x] < i,
                forall|x: int|
                    0 <= x < idxs.len() ==> (#[trigger] picked@[x]).1@ == self.nodes@[idxs[x]]@
                        && picked@[x].0 == out_degree(*self, idxs[x], kind_filter),
                forall|x: int|
                    0 <= x < idxs.len() ==> rank_included(*self, #[trigger] idxs[x], kind_filter),
                forall|x: int, y: int| 0 <= x < y < idxs.len() ==> idxs[x] != idxs[y],
                forall|ii: int|
                    0 <= ii < i && rank_included(*self, ii, kind_filter) ==> idxs.contains(ii),
            decreases n - i,
        {
            let included = match kind_filter {
                Option::None => true,
                Option::Some(k) => self.nodes[i].kind == k,
            };
            if included {
                let mut deg: usize = 0;
                let mut k: usize = 0;
                while k < self.edge_indices.len()
                    invariant
                        i < n,
                        n == self.nodes@.len(),
                        self.wf(),
                        k <= self.edge_indices@.len(),
                        deg <= k,
                        deg == out_degree_upto(*self, i as int, kind_filter, k as int),
                    decreases self.edge_indices@.len() - k,
                {
                    let (a, b) = self.edge_indices[k];
                    let tgt_in = match kind_filter {
                        Option::None => true,
                        Option::Some(kk) => self.nodes[b].kind == kk,
                    };
                    if a == i && tgt_in {
                        deg += 1;
                    }
                    k += 1;
                }
                picked.push((deg, self.nodes[i].duplicate()));
                proof {
                    let idxs0 = idxs;
                    idxs = idxs.push(i as int);
                    assert(idxs[idxs.len() - 1] == i as int);
                    assert forall|ii: int|
                        0 <= ii < i + 1 && rank_included(*self, ii, kind_filter)
                        implies idxs.contains(ii) by {
                        if ii < i {
                            assert(idxs0.contains(ii));
                            let x = choose|x: int| 0 <= x < idxs0.len() && idxs0[x] == ii;
                            assert(idxs[x] == ii);
                        } else {
                            assert(idxs[idxs.len() - 1] == ii);
                        }
                    }
                }
            } else {
                proof {
                    assert forall|ii: int|
                        0 <= ii < i + 1 && rank_included(*self, ii, kind_filter)
                        implies idxs.contains(ii) by {
                        assert(ii < i);
                    }
                }
            }
            i += 1;
        }
        let ghost pre = picked@;
        let r = sort_ranked(picked);
        proof {
            assert(pre.no_duplicates()) by {
                assert forall|x: int, y: int|
                    0 <= x < pre.len() && 0 <= y < pre.len() && x != y implies pre[x] != pre[y] by {
                    assert(pre[x].1@ == self.nodes@[idxs[x]]@);
                    assert(pre[y].1@ == self.nodes@[idxs[y]]@);
                    assert(self.nodes@[idxs[x]]@.id != self.nodes@[idxs[y]]@.id);
                }
            }
            pre.lemma_multiset_has_no_duplicates();
            r@.lemma_multiset_has_no_duplicates_conv();
            assert forall|x: int| 0 <= x < r@.len() implies rank_entry_ok(
                *self,
                kind_filter,
                #[trigger] r@[x],
            ) by {
                assert(r@.contains(r@[x]));
                assert(r@.to_multiset().count(r@[x]) > 0);
                assert(pre.to_multiset().count(r@[x]) > 0);
                assert(pre.contains(r@[x]));
                let y = choose|y: int| 0 <= y < pre.len() && pre[y] == r@[x];
                assert(0 <= idxs[y] < self.nodes@.len() && rank_included(
                    *self,
                    idxs[y],
                    kind_filter,
                ) && r@[x].1@ == self.nodes@[idxs[y]]@ && r@[x].0 == out_degree(
                    *self,
                    idxs[y],
                    kind_filter,
                ));
            }
            assert forall|i2: int|
                0 <= i2 < self.nodes@.len() && rank_included(*self, i2, kind_filter)
                implies exists|x: int|
                0 <= x < r@.len() && (#[trigger] r@[x]).1@ == #[trigger] self.nodes@[i2]@ by {
                assert(idxs.contains(i2));
                let y = choose|y: int| 0 <= y < idxs.len() && idxs[y] == i2;
                assert(pre[y].1@ == self.nodes@[i2]@);
                assert(pre.contains(pre[y]));
                assert(pre.to_multiset().count(pre[y]) > 0);
                assert(r@.to_multiset().count(pre[y]) > 0);
                assert(r@.contains(pre[y]));
                let x = choose|x: int| 0 <= x < r@.len() && r@[x] == pre[y];
                assert(0 <= x < r@.len() && r@[x].1@ == self.nodes@[i2]@);
            }
            assert forall|x: int, y: int| 0 <= x < y < r@.len() implies r@[x].1@.id
                != r@[y].1@.id by {
                assert(r@.no_duplicates());
                assert(r@[x] != r@[y]);
                assert(r@.contains(r@[x]));
                assert(r@.to_multiset().count(r@[x]) > 0);
                assert(pre.to_multiset().count(r@[x]) > 0);
                assert(pre.contains(r@[x]));
                assert(r@.contains(r@[y]));
                assert(r@.to_multiset().count(r@[y]) > 0);
                assert(pre.to_multiset().count(r@[y]) > 0);
                assert(pre.contains(r@[y]));
                let a = choose|a: int| 0 <= a < pre.len() && pre[a] == r@[x];
                let b = choose|b: int| 0 <= b < pre.len() && pre[b] == r@[y];
                assert(a != b);
                assert(r@[x].1@ == self.nodes@[idxs[a]]@);
                assert(r@[y].1@ == self.nodes@[idxs[b]]@);
                assert(self.nodes@[idxs[a]]@.id != self.nodes@[idxs[b]]@.id);
            }
        }
        r
    }
}

} // verus!
