//! Query-level analysis over the entity table: the unused report, the
//! deterministic full listing, and the project filter applied to changed
//! files.

use vstd::prelude::*;
use vstd::string::*;
use vstd::multiset::Multiset;
use crate::entity::{Entity, EntityModel, EntityType};
use crate::table::EntityTable;
use crate::graph::contains_id;
use crate::parser::entity_views;
use crate::strutil::{
    is_prefix, lemma_lex_refl, lemma_lex_total, lemma_lex_trans, lex_le, str_eq, str_le,
    str_starts_with,
};

verus! {

/// An entity the unused report names: never referenced anywhere, and a
/// real declaration — an `Unknown`-kind placeholder is not a declaration
/// and is never reported.
pub open spec fn is_unused(e: EntityModel) -> bool {
    !e.used && e.kind != EntityType::Unknown
}

/// The sort key used when entities are listed.
pub open spec fn sort_key(e: Entity, by_file: bool) -> Seq<char> {
    if by_file {
        e@.file_path
    } else {
        e@.id
    }
}

fn key_of<'a>(e: &'a Entity, by_file: bool) -> (r: &'a String)
    ensures
        r@ == sort_key(*e, by_file),
{
    if by_file {
        &e.file_path
    } else {
        &e.id
    }
}

/// Selection sort on the chosen key; the result holds the same entities.
fn sort_entities(v: Vec<Entity>, by_file: bool) -> (r: Vec<Entity>)
    ensures
        r@.to_multiset() == v@.to_multiset(),
        r@.len() == v@.len(),
        forall|i: int, j: int|
            0 <= i < j < r@.len() ==> lex_le(
                sort_key(#[trigger] r@[i], by_file),
                sort_key(#[trigger] r@[j], by_file),
            ),
{
    broadcast use vstd::seq_lib::group_to_multiset_ensures;
    broadcast use vstd::multiset::group_multiset_axioms;

    let mut src = v;
    let mut out: Vec<Entity> = Vec::new();
    proof {
        assert(out@.to_multiset().add(src@.to_multiset()) =~= v@.to_multiset());
    }
    while src.len() > 0
        invariant
            out@.to_multiset().add(src@.to_multiset()) == v@.to_multiset(),
            out@.len() + src@.len() == v@.len(),
            forall|i: int, j: int|
                0 <= i < j < out@.len() ==> lex_le(
                    sort_key(#[trigger] out@[i], by_file),
                    sort_key(#[trigger] out@[j], by_file),
                ),
            forall|x: int, y: int|
                0 <= x < out@.len() && 0 <= y < src@.len() ==> lex_le(
                    sort_key(#[trigger] out@[x], by_file),
                    sort_key(#[trigger] src@[y], by_file),
                ),
        decreases src@.len(),
    {
        let mut m: usize = 0;
        proof {
            lemma_lex_refl(sort_key(src@[0], by_file));
        }
        let mut j: usize = 1;
        while j < src.len()
            invariant
                src@.len() > 0,
                m < j,
                j <= src@.len(),
                forall|t: int|
                    0 <= t < j ==> lex_le(
                        sort_key(src@[m as int], by_file),
                        sort_key(#[trigger] src@[t], by_file),
                    ),
            decreases src@.len() - j,
        {
            let kj = key_of(&src[j], by_file);
            let km = key_of(&src[m], by_file);
            if str_le(kj.as_str(), km.as_str()) {
                proof {
                    assert forall|t: int| 0 <= t < j implies lex_le(
                        sort_key(src@[j as int], by_file),
                        sort_key(#[trigger] src@[t], by_file),
                    ) by {
                        lemma_lex_trans(
                            sort_key(src@[j as int], by_file),
                            sort_key(src@[m as int], by_file),
                            sort_key(src@[t], by_file),
                        );
                    }
                    lemma_lex_refl(sort_key(src@[j as int], by_file));
                }
                m = j;
            } else {
                proof {
                    lemma_lex_total(
                        sort_key(src@[j as int], by_file),
                        sort_key(src@[m as int], by_file),
                    );
                }
            }
            j += 1;
        }
        let ghost src0 = src@;
        let ghost out_pre = out@;
        let ghost e_m = src@[m as int];
        let e = src.remove(m);
        out.push(e);
        proof {
            broadcast use vstd::multiset::group_multiset_axioms;

            assert(m < src0.len());
            assert(out@ == out_pre.push(e_m));
            assert(out@[out@.len() - 1] == e_m);
            assert(src@ == src0.remove(m as int));
            vstd::seq_lib::to_multiset_remove::<Entity>(src0, m as int);
            assert(src@.to_multiset() == src0.to_multiset().remove(e_m));
            vstd::seq_lib::to_multiset_build::<Entity>(out_pre, e_m);
            assert(out@.to_multiset() == out_pre.to_multiset().insert(e_m));
            vstd::seq_lib::to_multiset_contains::<Entity>(src0, e_m);
            assert(src0.contains(e_m));
            assert(src0.to_multiset().count(e_m) > 0);
            assert(out_pre.to_multiset().add(src0.to_multiset()) == v@.to_multiset());
            assert forall|x: Entity| #[trigger] out@.to_multiset().add(src@.to_multiset()).count(x)
                == v@.to_multiset().count(x) by {
                assert(out@.to_multiset().count(x) == out_pre.to_multiset().count(x) + if x == e_m {
                    1int
                } else {
                    0int
                });
                assert(src@.to_multiset().count(x) == src0.to_multiset().count(x) - if x == e_m {
                    1int
                } else {
                    0int
                });
            }
            assert(out@.to_multiset().add(src@.to_multiset()) =~= v@.to_multiset());
            assert forall|x: int, y: int|
                0 <= x < out@.len() && 0 <= y < src@.len() implies lex_le(
                sort_key(#[trigger] out@[x], by_file),
                sort_key(#[trigger] src@[y], by_file),
            ) by {
                let src_y = src@[y];
                if y < m {
                    assert(src_y == src0[y]);
                } else {
                    assert(src_y == src0[y + 1]);
                }
                if x < out@.len() - 1 {
                    assert(lex_le(sort_key(out@[x], by_file), sort_key(e_m, by_file)));
                    lemma_lex_trans(
                        sort_key(out@[x], by_file),
                        sort_key(e_m, by_file),
                        sort_key(src_y, by_file),
                    );
                }
            }
        }
    }
    proof {
        assert(src@.to_multiset() =~= Multiset::<Entity>::empty());
        assert(out@.to_multiset() =~= v@.to_multiset());
    }
    out
}

/// All entities that are declared yet never referenced, ordered by file
/// path: exactly the table records `r` with `is_unused(r)`, each once.
pub fn unused_entities(table: &EntityTable) -> (r: Vec<Entity>)
    requires
        table.wf(),
    ensures
        forall|x: int|
            0 <= x < r@.len() ==> is_unused((#[trigger] r@[x])@) && table@.contains_key(r@[x]@.id)
                && table@[r@[x]@.id] == r@[x]@,
        forall|i: int|
            0 <= i < table.list().len() && is_unused(#[trigger] table.list()[i]) ==> exists|x: int|
                0 <= x < r@.len() && (#[trigger] r@[x])@ == table.list()[i],
        forall|x: int, y: int| 0 <= x < y < r@.len() ==> r@[x]@.id != r@[y]@.id,
        forall|i: int, j: int|
            0 <= i < j < r@.len() ==> lex_le(
                (#[trigger] r@[i])@.file_path,
                (#[trigger] r@[j])@.file_path,
            ),
{
    broadcast use vstd::seq_lib::group_to_multiset_ensures;
    broadcast use vstd::multiset::group_multiset_axioms;

    let ghost s = table.list();
    proof {
        table.lemma_view_is_map_of_list();
    }
    let n = table.len();
    let mut picked: Vec<Entity> = Vec::new();
    let ghost mut idxs: Seq<int> = Seq::empty();
    let mut i: usize = 0;
    while i < n
        invariant
            i <= n,
            n == s.len(),
            s == table.list(),
            table.wf(),
            picked@.len() == idxs.len(),
            forall|x: int| 0 <= x < idxs.len() ==> 0 <= #[trigger] idxs[x] < i,
            forall|x: int| 0 <= x < idxs.len() ==> (#[trigger] picked@[x])@ == s[idxs[x]],
            forall|x: int| 0 <= x < idxs.len() ==> is_unused(s[#[trigger] idxs[x]]),
            forall|x: int, y: int| 0 <= x < y < idxs.len() ==> idxs[x] != idxs[y],
            forall|ii: int| 0 <= ii < i && is_unused(#[trigger] s[ii]) ==> idxs.contains(ii),
        decreases n - i,
    {
        let e = table.entity_at(i);
        let keep = !e.used && !matches!(e.entity_type, EntityType::Unknown);
        if keep {
            picked.push(e.duplicate());
            proof {
                let idxs0 = idxs;
                idxs = idxs.push(i as int);
                assert(idxs[idxs.len() - 1] == i as int);
                assert forall|ii: int| 0 <= ii < i + 1 && is_unused(#[trigger] s[ii])
                    implies idxs.contains(ii) by {
                    if ii < i {
                        assert(idxs0.contains(ii));
                        let x = choose|x: int| 0 <= x < idxs0.len() && idxs0[x] == ii;
                        assert(idxs[x] == ii);
                    } else {
                        assert(idxs[idxs.len() - 1] == ii);
                    }
                }
            }
        } else {
            proof {
                assert forall|ii: int| 0 <= ii < i + 1 && is_unused(#[trigger] s[ii])
                    implies idxs.contains(ii) by {
                    assert(ii < i);
                }
            }
        }
        i += 1;
    }
    let ghost pre = picked@;
    let r = sort_entities(picked, true);
    proof {
        assert(pre.no_duplicates()) by {
            assert forall|x: int, y: int|
                0 <= x < pre.len() && 0 <= y < pre.len() && x != y implies pre[x] != pre[y] by {
                assert(pre[x]@ == s[idxs[x]]);
                assert(pre[y]@ == s[idxs[y]]);
                assert(s[idxs[x]].id != s[idxs[y]].id);
            }
        }
        pre.lemma_multiset_has_no_duplicates();
        r@.lemma_multiset_has_no_duplicates_conv();
        assert forall|x: int| 0 <= x < r@.len() implies is_unused((#[trigger] r@[x])@)
            && table@.contains_key(r@[x]@.id) && table@[r@[x]@.id] == r@[x]@ by {
            assert(r@.contains(r@[x]));
            assert(r@.to_multiset().count(r@[x]) > 0);
            assert(pre.to_multiset().count(r@[x]) > 0);
            assert(pre.contains(r@[x]));
            let y = choose|y: int| 0 <= y < pre.len() && pre[y] == r@[x];
            assert(r@[x]@ == s[idxs[y]]);
            table.lemma_contains(s[idxs[y]].id);
            assert(s[idxs[y]].id == r@[x]@.id);
        }
        assert forall|i2: int|
            0 <= i2 < s.len() && is_unused(#[trigger] s[i2]) implies exists|x: int|
            0 <= x < r@.len() && (#[trigger] r@[x])@ == s[i2] by {
            assert(idxs.contains(i2));
            let y = choose|y: int| 0 <= y < idxs.len() && idxs[y] == i2;
            assert(pre[y]@ == s[i2]);
            assert(pre.contains(pre[y]));
            assert(pre.to_multiset().count(pre[y]) > 0);
            assert(r@.to_multiset().count(pre[y]) > 0);
            assert(r@.contains(pre[y]));
            let x = choose|x: int| 0 <= x < r@.len() && r@[x] == pre[y];
            assert(0 <= x < r@.len() && r@[x]@ == s[i2]);
        }
        assert forall|x: int, y: int| 0 <= x < y < r@.len() implies r@[x]@.id != r@[y]@.id by {
            assert(r@.no_duplicates());
            assert(r@[x] != r@[y]);
            assert(r@.contains(r@[x]));
            assert(r@.to_multiset().count(r@[x]) > 0);
            assert(pre.to_multiset().count(r@[x]) > 0);
            assert(pre.contains(r@[x]));
            assert(r@.contains(r@[y]));
            assert(r@.to_multiset().count(r@[y]) > 0);
            assert(pre.to_multiset().count(r@[y]) > 0);
            assert(pre.contains(r@[y]));
            let a = choose|a: int| 0 <= a < pre.len() && pre[a] == r@[x];
            let b = choose|b: int| 0 <= b < pre.len() && pre[b] == r@[y];
            assert(a != b);
            assert(r@[x]@ == s[idxs[a]]);
            assert(r@[y]@ == s[idxs[b]]);
            assert(s[idxs[a]].id != s[idxs[b]].id);
        }
    }
    r
}

/// The whole table as a list ordered by identity, for deterministic output.
pub fn entities_sorted_by_id(table: &EntityTable) -> (r: Vec<Entity>)
    requires
        table.wf(),
    ensures
        r@.len() == table.list().len(),
        forall|x: int|
            0 <= x < r@.len() ==> table@.contains_key((#[trigger] r@[x])@.id) && table@[r@[x]@.id]
                == r@[x]@,
        forall|i: int|
            0 <= i < table.list().len() ==> exists|x: int|
                0 <= x < r@.len() && (#[trigger] r@[x])@ == #[trigger] table.list()[i],
        forall|i: int, j: int|
            0 <= i < j < r@.len() ==> lex_le((#[trigger] r@[i])@.id, (#[trigger] r@[j])@.id),
{
    broadcast use vstd::seq_lib::group_to_multiset_ensures;
    broadcast use vstd::multiset::group_multiset_axioms;

    let ghost s = table.list();
    proof {
        table.lemma_view_is_map_of_list();
    }
    let n = table.len();
    let mut picked: Vec<Entity> = Vec::new();
    let mut i: usize = 0;
    while i < n
        invariant
            i <= n,
            n == s.len(),
            s == table.list(),
            table.wf(),
            picked@.len() == i as int,
            forall|x: int| 0 <= x < i ==> (#[trigger] picked@[x])@ == s[x],
        decreases n - i,
    {
        picked.push(table.entity_at(i).duplicate());
        i += 1;
    }
    let ghost pre = picked@;
    let r = sort_entities(picked, false);
    proof {
        assert forall|x: int| 0 <= x < r@.len() implies table@.contains_key(
            (#[trigger] r@[x])@.id,
        ) && table@[r@[x]@.id] == r@[x]@ by {
            assert(r@.contains(r@[x]));
            assert(r@.to_multiset().count(r@[x]) > 0);
            assert(pre.to_multiset().count(r@[x]) > 0);
            assert(pre.contains(r@[x]));
            let y = choose|y: int| 0 <= y < pre.len() && pre[y] == r@[x];
            assert(r@[x]@ == s[y]);
            table.lemma_contains(s[y].id);
        }
        assert forall|i2: int| 0 <= i2 < s.len() implies exists|x: int|
            0 <= x < r@.len() && (#[trigger] r@[x])@ == #[trigger] s[i2] by {
            assert(pre[i2]@ == s[i2]);
            assert(pre.contains(pre[i2]));
            assert(pre.to_multiset().count(pre[i2]) > 0);
            assert(r@.to_multiset().count(pre[i2]) > 0);
            assert(r@.contains(pre[i2]));
            let x = choose|x: int| 0 <= x < r@.len() && r@[x] == pre[i2];
            assert(0 <= x < r@.len() && r@[x]@ == s[i2]);
        }
    }
    r
}

/// Declaring exactly the queried name.
pub open spec fn has_name(name: Seq<char>) -> spec_fn(EntityModel) -> bool {
    |e: EntityModel| e.name == name
}

/// The table records declaring the given name, in table order — the
/// lookup behind the query command.
pub fn entities_named(table: &EntityTable, name: &str) -> (r: Vec<Entity>)
    requires
        table.wf(),
    ensures
        entity_views(r@) == table.list().filter(has_name(name@)),
{
    let ghost s = table.list();
    let n = table.len();
    let mut out: Vec<Entity> = Vec::new();
    proof {
        reveal_with_fuel(Seq::<EntityModel>::filter, 2);
        assert(s.take(0) =~= Seq::<EntityModel>::empty());
        assert(entity_views(out@) =~= s.take(0).filter(has_name(name@)));
    }
    let mut i: usize = 0;
    while i < n
        invariant
            i <= n,
            n == s.len(),
            s == table.list(),
            table.wf(),
            entity_views(out@) == s.take(i as int).filter(has_name(name@)),
        decreases n - i,
    {
        let e = table.entity_at(i);
        let ghost pre = entity_views(out@);
        let keep = str_eq(e.name.as_str(), name);
        if keep {
            out.push(e.duplicate());
        }
        proof {
            reveal_with_fuel(Seq::<EntityModel>::filter, 2);
            assert(s.take(i as int + 1).drop_last() =~= s.take(i as int));
            assert(s.take(i as int + 1).last() == s[i as int]);
            if keep {
                assert(entity_views(out@) =~= pre.push(s[i as int]));
            }
            assert(entity_views(out@) =~= s.take(i as int + 1).filter(has_name(name@)));
        }
        i += 1;
    }
    proof {
        assert(s.take(n as int) =~= s);
    }
    out
}

/// The top-level code areas of the source tree.
#[derive(Clone, Copy, Debug, PartialEq, Eq, Structural)]
pub enum Project {
    Web,
    Mobile,
    Libs,
}

impl Project {
    /// The subdirectory, under the repository root, that the project
    /// lives in.
    pub open spec fn subdir_spec(self) -> Seq<char> {
        match self {
            Project::Web => "apps/web"@,
            Project::Mobile => "apps/mobile"@,
            Project::Libs => "libs"@,
        }
    }

    pub fn subdir(&self) -> (r: &'static str)
        ensures
            r@ == self.subdir_spec(),
    {
        match self {
            Project::Web => "apps/web",
            Project::Mobile => "apps/mobile",
            Project::Libs => "libs",
        }
    }
}

/// The path prefix that places a file inside a project: the repository
/// root, a separator, the project's subdirectory, a separator.
pub open spec fn project_prefix_spec(root: Seq<char>, p: Project) -> Seq<char> {
    root + "/"@ + p.subdir_spec() + "/"@
}

/// Whether an absolute file path lies inside the given project.
pub fn file_in_project(path: &str, root: &str, project: Project) -> (r: bool)
    ensures
        r == is_prefix(project_prefix_spec(root@, project), path@),
{
    let mut prefix = String::from_str(root);
    prefix.append("/");
    prefix.append(project.subdir());
    prefix.append("/");
    str_starts_with(path, prefix.as_str())
}

/// Keeps exactly the changed files that lie inside the project; with no
/// project every file is kept.
pub fn filter_changed_by_project(changed: &Vec<String>, root: &str, project: Option<Project>) -> (r:
    Vec<String>)
    ensures
        match project {
            Some(p) => {
                &&& forall|x: int|
                    0 <= x < r@.len() ==> is_prefix(
                        project_prefix_spec(root@, p),
                        (#[trigger] r@[x])@,
                    ) && contains_id(changed@, r@[x]@)
                &&& forall|y: int|
                    0 <= y < changed@.len() && is_prefix(
                        project_prefix_spec(root@, p),
                        (#[trigger] changed@[y])@,
                    ) ==> contains_id(r@, changed@[y]@)
            },
            None => r@.map_values(|s: String| s@) == changed@.map_values(|s: String| s@),
        },
{
    match project {
        Some(p) => {
            let mut out: Vec<String> = Vec::new();
            let mut i: usize = 0;
            while i < changed.len()
                invariant
                    i <= changed@.len(),
                    forall|x: int|
                        0 <= x < out@.len() ==> is_prefix(
                            project_prefix_spec(root@, p),
                            (#[trigger] out@[x])@,
                        ) && contains_id(changed@, out@[x]@),
                    forall|y: int|
                        0 <= y < i && is_prefix(
                            project_prefix_spec(root@, p),
                            (#[trigger] changed@[y])@,
                        ) ==> contains_id(out@, changed@[y]@),
                decreases changed@.len() - i,
            {
                if file_in_project(changed[i].as_str(), root, p) {
                    let ghost out0 = out@;
                    out.push(changed[i].clone());
                    proof {
                        assert(out@[out@.len() - 1]@ == changed@[i as int]@);
                        assert forall|y: int|
                            0 <= y < i + 1 && is_prefix(
                                project_prefix_spec(root@, p),
                                (#[trigger] changed@[y])@,
                            ) implies contains_id(out@, changed@[y]@) by {
                            if y < i {
                                let x = choose|x: int|
                                    0 <= x < out0.len() && (#[trigger] out0[x])@ == changed@[y]@;
                                assert(out@[x]@ == changed@[y]@);
                            } else {
                                assert(out@[out@.len() - 1]@ == changed@[y]@);
                            }
                        }
                        assert forall|x: int| 0 <= x < out@.len() implies is_prefix(
                            project_prefix_spec(root@, p),
                            (#[trigger] out@[x])@,
                        ) && contains_id(changed@, out@[x]@) by {
                            if x < out@.len() - 1 {
                                assert(out@[x] == out0[x]);
                            } else {
                                assert(changed@[i as int]@ == out@[x]@);
                            }
                        }
                    }
                } else {
                    proof {
                        assert forall|y: int|
                            0 <= y < i + 1 && is_prefix(
                                project_prefix_spec(root@, p),
                                (#[trigger] changed@[y])@,
                            ) implies contains_id(out@, changed@[y]@) by {
                            assert(y != i);
                        }
                    }
                }
                i += 1;
            }
            out
        },
        None => {
            let mut out: Vec<String> = Vec::new();
            let mut i: usize = 0;
            while i < changed.len()
                invariant
                    i <= changed@.len(),
                    out@.len() == i as int,
                    forall|x: int| 0 <= x < i ==> (#[trigger] out@[x])@ == changed@[x]@,
                decreases changed@.len() - i,
            {
                out.push(changed[i].clone());
                i += 1;
            }
            proof {
                assert(out@.map_values(|s: String| s@) =~= changed@.map_values(|s: String| s@));
            }
            out
        },
    }
}

} // verus!
