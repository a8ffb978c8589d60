//! Ordering top-level definitions so that each is checked after what it uses.
use vstd::prelude::*;

use crate::expr::Expr;
use crate::pools::{assoc_find, assoc_insert, lemma_assoc_index, lemma_prefix_trans, prefix_of, ExprId, PatternId, Pools};
use crate::InternedString;

verus! {

/// Definitions that are checked together; recursive when they use one another.
#[derive(Debug, Clone)]
pub struct DefinitionGroup {
    pub definitions: Vec<InternedString>,
    pub is_recursive: bool,
}

/// A top-level definition and the global names it uses.
#[derive(Debug, Clone)]
pub struct Declaration {
    pub name: InternedString,
    pub kind: DeclarationKind,
    pub dependencies: Vec<InternedString>,
}

#[derive(Debug, Clone, Copy)]
pub enum DeclarationKind {
    Function(ExprId),
    DataType,
}

/// Every entry of every adjacency list names a node.
pub open spec fn edges_in_range(adj: Seq<Vec<usize>>) -> bool {
    forall|i: int, j: int| 0 <= i < adj.len() && 0 <= j < adj[i]@.len() ==> #[trigger] adj[i]@[j] < adj.len()
}

/// Every entry of every component names a node below `n`.
pub open spec fn components_in_range(sccs: Seq<Vec<usize>>, n: nat) -> bool {
    forall|i: int, j: int| 0 <= i < sccs.len() && 0 <= j < sccs[i]@.len() ==> #[trigger] sccs[i]@[j] < n
}

/// Every name of every group is the name of a declaration.
pub open spec fn names_declared(groups: Seq<DefinitionGroup>, decls: Seq<Declaration>) -> bool {
    forall|g: int, k: int|
        0 <= g < groups.len() && 0 <= k < groups[g].definitions@.len() ==> is_declared(decls, #[trigger] groups[g].definitions@[k])
}

/// Some declaration has the name `name`.
pub open spec fn is_declared(decls: Seq<Declaration>, name: InternedString) -> bool {
    exists|d: int| 0 <= d < decls.len() && decls[d].name == name
}

/// Declaration `d` has its name in group `g`, every declared name that it uses is in
/// `g` or an earlier group, and if `g` has one member it is recursive exactly when `d`
/// uses its own name.
pub open spec fn placed_in(groups: Seq<DefinitionGroup>, decls: Seq<Declaration>, d: int, g: int) -> bool {
    &&& 0 <= g < groups.len()
    &&& groups[g].definitions@.contains(decls[d].name)
    &&& groups[g].definitions@.len() == 1 ==> (groups[g].is_recursive <==> decls[d].dependencies@.contains(decls[d].name))
    &&& forall|k: int|
        #![trigger decls[d].dependencies@[k]]
        0 <= k < decls[d].dependencies@.len() && is_declared(decls, decls[d].dependencies@[k]) ==> exists|h: int|
            0 <= h <= g && (#[trigger] groups[h]).definitions@.contains(decls[d].dependencies@[k])
}

/// Declaration `d` is placed in some group.
pub open spec fn is_placed(groups: Seq<DefinitionGroup>, decls: Seq<Declaration>, d: int) -> bool {
    exists|g: int| #[trigger] placed_in(groups, decls, d, g)
}

/// Every declaration is placed in some group: what it uses comes no later.
pub open spec fn dependencies_first(groups: Seq<DefinitionGroup>, decls: Seq<Declaration>) -> bool {
    forall|d: int| 0 <= d < decls.len() ==> #[trigger] is_placed(groups, decls, d)
}

/// `group` holds the names of the nodes of `scc`, and is recursive when the component
/// has several nodes or its node uses its own name.
pub open spec fn group_of_scc(group: DefinitionGroup, scc: Seq<usize>, decls: Seq<Declaration>) -> bool {
    &&& group.definitions@ == scc_names(scc, decls)
    &&& group.is_recursive == (scc.len() > 1 || decls[scc[0] as int].dependencies@.contains(decls[scc[0] as int].name))
}

/// The names of the nodes listed in `scc`.
pub open spec fn scc_names(scc: Seq<usize>, decls: Seq<Declaration>) -> Seq<InternedString> {
    scc.map_values(|x: usize| decls[x as int].name)
}

/// No two declarations share a name.
pub open spec fn distinct_decl_names(decls: Seq<Declaration>) -> bool {
    forall|i: int, j: int| 0 <= i < j < decls.len() ==> (#[trigger] decls[i]).name != (#[trigger] decls[j]).name
}

/// Declaration `x` uses the name of declaration `y`.
pub open spec fn uses_decl(decls: Seq<Declaration>, x: int, y: int) -> bool {
    0 <= x < decls.len() && 0 <= y < decls.len() && decls[x].dependencies@.contains(decls[y].name)
}

/// Declaration `x` reaches declaration `y` through at most `steps` uses.
pub open spec fn reaches(decls: Seq<Declaration>, x: int, y: int, steps: nat) -> bool
    decreases steps,
{
    x == y || (steps > 0 && exists|z: int| #[trigger] uses_decl(decls, x, z) && reaches(decls, z, y, (steps - 1) as nat))
}

/// Every name occurs once over all the groups.
pub open spec fn names_once(groups: Seq<DefinitionGroup>) -> bool {
    forall|g1: int, k1: int, g2: int, k2: int|
        0 <= g1 < groups.len() && 0 <= k1 < groups[g1].definitions@.len() && 0 <= g2 < groups.len() && 0 <= k2
            < groups[g2].definitions@.len() && #[trigger] groups[g1].definitions@[k1] == #[trigger] groups[g2].definitions@[k2]
            ==> g1 == g2 && k1 == k2
}

/// Some group holds both names.
pub open spec fn same_group(groups: Seq<DefinitionGroup>, a: InternedString, b: InternedString) -> bool {
    exists|g: int| 0 <= g < groups.len() && (#[trigger] groups[g]).definitions@.contains(a) && groups[g].definitions@.contains(b)
}

/// Declarations that reach each other are in one group.
pub open spec fn cycles_grouped(groups: Seq<DefinitionGroup>, decls: Seq<Declaration>) -> bool {
    forall|x: int, y: int, s1: nat, s2: nat|
        0 <= x < decls.len() && 0 <= y < decls.len() && #[trigger] reaches(decls, x, y, s1) && #[trigger] reaches(decls, y, x, s2)
            ==> same_group(groups, decls[x].name, decls[y].name)
}

/// Groups the declarations into strongly connected components of the "uses" relation,
/// ordered so that a group comes after the groups it uses; a group is recursive when
/// it has more than one member or its member uses itself.
pub fn topological_sort_declarations(declarations: Vec<Declaration>) -> (r: Vec<DefinitionGroup>)
    ensures
        names_declared(r@, declarations@),
        forall|g: int| 0 <= g < r@.len() ==> (#[trigger] r@[g]).definitions@.len() > 0,
        forall|g: int| 0 <= g < r@.len() && (#[trigger] r@[g]).definitions@.len() > 1 ==> r@[g].is_recursive,
        declarations@.len() == 0 ==> r@.len() == 0,
        dependencies_first(r@, declarations@),
        distinct_decl_names(declarations@) ==> names_once(r@),
        distinct_decl_names(declarations@) ==> cycles_grouped(r@, declarations@),
        distinct_decl_names(declarations@) ==> groups_connected(r@, declarations@),
{
    let n = declarations.len();
    let mut name_to_index: Vec<(InternedString, usize)> = Vec::new();
    let mut i: usize = 0;
    while i < n
        invariant
            i <= n,
            n == declarations@.len(),
            forall|k: int| 0 <= k < name_to_index@.len() ==> (#[trigger] name_to_index@[k]).1 < n
                && declarations@[name_to_index@[k].1 as int].name == name_to_index@[k].0,
            forall|j: int| 0 <= j < i ==> crate::pools::assoc_index(name_to_index@, (#[trigger] declarations@[j]).name) >= 0,
        decreases n - i,
    {
        let ghost m0 = name_to_index@;
        let ghost k0 = declarations@[i as int].name;
        assoc_insert(&mut name_to_index, declarations[i].name, i);
        proof {
            crate::pools::lemma_assoc_index(m0, k0);
            assert forall|k: int| 0 <= k < name_to_index@.len() implies (#[trigger] name_to_index@[k]).1 < n
                && declarations@[name_to_index@[k].1 as int].name == name_to_index@[k].0 by {
                if crate::pools::assoc_index(m0, k0) >= 0 {
                    if k != crate::pools::assoc_index(m0, k0) {
                        assert(name_to_index@[k] == m0[k]);
                    }
                } else if k < m0.len() {
                    assert(name_to_index@[k] == m0[k]);
                }
            }
            assert forall|j: int| 0 <= j < i + 1 implies crate::pools::assoc_index(name_to_index@, (#[trigger] declarations@[j]).name) >= 0 by {
                let kj = declarations@[j].name;
                crate::pools::lemma_assoc_put_get(m0, k0, i, kj);
                if kj != k0 {
                    assert(crate::pools::assoc_index(m0, kj) >= 0);
                    assert(crate::pools::assoc_get(m0, kj) is Some);
                }
                assert(crate::pools::assoc_get(name_to_index@, kj) is Some);
            }
        }
        i = i + 1;
    }
    let mut adj_list: Vec<Vec<usize>> = Vec::new();
    let mut a: usize = 0;
    while a < n
        invariant
            a <= n,
            adj_list@.len() == a,
            edges_in_range_below(adj_list@, n as nat),
            edges_are_uses(adj_list@, declarations@),
        decreases n - a,
    {
        let ghost adj0 = adj_list@;
        adj_list.push(Vec::new());
        proof {
            assert forall|z: int, y: usize| 0 <= z < adj_list@.len() && #[trigger] adj_list@[z]@.contains(y)
                implies uses_decl(declarations@, y as int, z) by {
                if z < a {
                    assert(adj_list@[z] == adj0[z]);
                } else {
                    assert(adj_list@[z]@.len() == 0);
                }
            }
        }
        a = a + 1;
    }
    let mut d: usize = 0;
    while d < n
        invariant
            d <= n,
            n == declarations@.len(),
            adj_list@.len() == n,
            edges_in_range_below(adj_list@, n as nat),
            edges_are_uses(adj_list@, declarations@),
            forall|k: int| 0 <= k < name_to_index@.len() ==> (#[trigger] name_to_index@[k]).1 < n
                && declarations@[name_to_index@[k].1 as int].name == name_to_index@[k].0,
            forall|x: int, k: int| 0 <= x < d && 0 <= k < declarations@[x].dependencies@.len()
                && crate::pools::assoc_index(name_to_index@, #[trigger] declarations@[x].dependencies@[k]) >= 0
                ==> adj_list@[name_to_index@[crate::pools::assoc_index(name_to_index@, declarations@[x].dependencies@[k])].1 as int]@.contains(x as usize),
        decreases n - d,
    {
        let deps = &declarations[d].dependencies;
        let mut k: usize = 0;
        while k < deps.len()
            invariant
                k <= deps@.len(),
                d < n,
                n == declarations@.len(),
                deps@ == declarations@[d as int].dependencies@,
                adj_list@.len() == n,
                edges_in_range_below(adj_list@, n as nat),
                edges_are_uses(adj_list@, declarations@),
                forall|m: int| 0 <= m < name_to_index@.len() ==> (#[trigger] name_to_index@[m]).1 < n
                    && declarations@[name_to_index@[m].1 as int].name == name_to_index@[m].0,
                forall|x: int, k2: int| 0 <= x < d && 0 <= k2 < declarations@[x].dependencies@.len()
                    && crate::pools::assoc_index(name_to_index@, #[trigger] declarations@[x].dependencies@[k2]) >= 0
                    ==> adj_list@[name_to_index@[crate::pools::assoc_index(name_to_index@, declarations@[x].dependencies@[k2])].1 as int]@.contains(x as usize),
                forall|k2: int| 0 <= k2 < k && crate::pools::assoc_index(name_to_index@, #[trigger] deps@[k2]) >= 0
                    ==> adj_list@[name_to_index@[crate::pools::assoc_index(name_to_index@, deps@[k2])].1 as int]@.contains(d),
            decreases deps@.len() - k,
        {
            proof {
                lemma_assoc_index(name_to_index@, deps@[k as int]);
            }
            match assoc_find(&name_to_index, deps[k]) {
                Some(pos) => {
                    let dep_index = name_to_index[pos].1;
                    let ghost adj0 = adj_list@;
                    let mut row = adj_list[dep_index].clone();
                    proof {
                        assert(row@ == adj0[dep_index as int]@);
                    }
                    row.push(d);
                    adj_list.set(dep_index, row);
                    proof {
                        let m = name_to_index@;
                        assert forall|x: int, y: int| 0 <= x < adj_list@.len() && 0 <= y < adj_list@[x]@.len() implies #[trigger] adj_list@[x]@[y] < n by {
                            if x != dep_index {
                                assert(adj_list@[x] == adj0[x]);
                            } else if y < adj0[x]@.len() {
                                assert(adj_list@[x]@[y] == adj0[x]@[y]);
                            }
                        }
                        // rows only grow
                        assert forall|z: int, y: usize| 0 <= z < n && adj0[z]@.contains(y) implies #[trigger] adj_list@[z]@.contains(y) by {
                            if z == dep_index {
                                let q = choose|q: int| 0 <= q < adj0[z]@.len() && adj0[z]@[q] == y;
                                assert(adj_list@[z]@[q] == y);
                            } else {
                                assert(adj_list@[z] == adj0[z]);
                            }
                        }
                        assert(adj_list@[dep_index as int]@[adj_list@[dep_index as int]@.len() - 1] == d);
                        assert(adj_list@[dep_index as int]@.contains(d));
                        assert(deps@[k as int] == m[pos as int].0);
                        assert(declarations@[dep_index as int].name == m[pos as int].0);
                        assert(declarations@[d as int].dependencies@.contains(declarations@[dep_index as int].name));
                        assert forall|z: int, y: usize| 0 <= z < adj_list@.len() && #[trigger] adj_list@[z]@.contains(y)
                            implies uses_decl(declarations@, y as int, z) by {
                            if z != dep_index {
                                assert(adj_list@[z] == adj0[z]);
                                assert(adj0[z]@.contains(y));
                            } else if y != d {
                                let q = choose|q: int| 0 <= q < adj_list@[z]@.len() && adj_list@[z]@[q] == y;
                                assert(q < adj0[z]@.len());
                                assert(adj0[z]@[q] == y);
                                assert(adj0[z]@.contains(y));
                            } else {
                                assert(uses_decl(declarations@, d as int, dep_index as int));
                            }
                        }
                        assert forall|x: int, k2: int| 0 <= x < d && 0 <= k2 < declarations@[x].dependencies@.len()
                            && crate::pools::assoc_index(m, #[trigger] declarations@[x].dependencies@[k2]) >= 0
                            implies adj_list@[m[crate::pools::assoc_index(m, declarations@[x].dependencies@[k2])].1 as int]@.contains(x as usize) by {
                            crate::pools::lemma_assoc_index(m, declarations@[x].dependencies@[k2]);
                            let z = m[crate::pools::assoc_index(m, declarations@[x].dependencies@[k2])].1 as int;
                            assert(adj0[z]@.contains(x as usize));
                        }
                        assert forall|k2: int| 0 <= k2 < k + 1 && crate::pools::assoc_index(m, #[trigger] deps@[k2]) >= 0
                            implies adj_list@[m[crate::pools::assoc_index(m, deps@[k2])].1 as int]@.contains(d) by {
                            crate::pools::lemma_assoc_index(m, deps@[k2]);
                            if k2 < k {
                                let z = m[crate::pools::assoc_index(m, deps@[k2])].1 as int;
                                assert(adj0[z]@.contains(d));
                            }
                        }
                    }
                },
                None => {},
            }
            k = k + 1;
        }
        d = d + 1;
    }
    let ghost decls = declarations@;
    let ghost adj = adj_list@;
    proof {
        // every declared name is found, at a declaration with that name
        assert forall|x: int, k: int| 0 <= x < n && 0 <= k < decls[x].dependencies@.len() && is_declared(decls, #[trigger] decls[x].dependencies@[k])
            implies crate::pools::assoc_index(name_to_index@, decls[x].dependencies@[k]) >= 0 by {
            let j = choose|j: int| 0 <= j < decls.len() && decls[j].name == decls[x].dependencies@[k];
            assert(crate::pools::assoc_index(name_to_index@, decls[j].name) >= 0);
        }
    }
    let sccs = find_strongly_connected_components(&adj_list);
    let mut groups: Vec<DefinitionGroup> = Vec::new();
    let mut visited: Vec<bool> = Vec::new();
    let mut b: usize = 0;
    while b < n
        invariant
            b <= n,
            visited@.len() == b,
            forall|x: int| 0 <= x < b ==> !(#[trigger] visited@[x]),
        decreases n - b,
    {
        visited.push(false);
        proof {
            assert forall|x: int| 0 <= x < b + 1 implies !(#[trigger] visited@[x]) by {
                if x < b {
                    assert(visited@[x] == visited@.drop_last()[x]);
                }
            }
        }
        b = b + 1;
    }
    proof {
        assert forall|x: int| 0 <= x < n implies (#[trigger] visited@[x] <==> scc_of(sccs@, x as usize) >= sccs@.len()) by {
            lemma_scc_of(sccs@, x as usize);
        }
    }
    let mut s: usize = sccs.len();
    while s > 0
        invariant
            s <= sccs@.len(),
            n == declarations@.len(),
            decls == declarations@,
            visited@.len() == n,
            components_in_range(sccs@, n as nat),
            forall|x: usize| x < n ==> #[trigger] is_done(sccs@, x),
            forall|t: int, i: int, j: int| 0 <= t < sccs@.len() && 0 <= i < j < sccs@[t]@.len() ==> sccs@[t]@[i] != sccs@[t]@[j],
            forall|t: int, j: int| 0 <= t < sccs@.len() && 0 <= j < sccs@[t]@.len() ==> scc_of(sccs@, #[trigger] sccs@[t]@[j]) == t,
            forall|t: int| 0 <= t < sccs@.len() ==> (#[trigger] sccs@[t])@.len() > 0,
            forall|x: int| 0 <= x < n ==> (#[trigger] visited@[x] <==> scc_of(sccs@, x as usize) >= s),
            groups@.len() == sccs@.len() - s,
            forall|g: int| 0 <= g < groups@.len() ==> group_of_scc(#[trigger] groups@[g], sccs@[sccs@.len() - 1 - g]@, decls),
        decreases s,
    {
        s = s - 1;
        let scc = &sccs[s];
        proof {
            assert(scc@.len() > 0);
            assert(sccs@[s as int]@[0] < n);
        }
        if scc.len() > 0 {
            let is_recursive = scc.len() > 1 || has_self_dependency(&declarations[scc[0]]);
            let mut group_names: Vec<InternedString> = Vec::new();
            let mut t: usize = 0;
            while t < scc.len()
                invariant
                    t <= scc@.len(),
                    scc@ == sccs@[s as int]@,
                    s < sccs@.len(),
                    n == declarations@.len(),
                    decls == declarations@,
                    visited@.len() == n,
                    components_in_range(sccs@, n as nat),
                    forall|t2: int, i: int, j: int| 0 <= t2 < sccs@.len() && 0 <= i < j < sccs@[t2]@.len() ==> sccs@[t2]@[i] != sccs@[t2]@[j],
                    forall|t2: int, j: int| 0 <= t2 < sccs@.len() && 0 <= j < sccs@[t2]@.len() ==> scc_of(sccs@, #[trigger] sccs@[t2]@[j]) == t2,
                    forall|x: int| 0 <= x < n ==> (#[trigger] visited@[x] <==> (scc_of(sccs@, x as usize) > s || scc@.subrange(0, t as int).contains(x as usize))),
                    group_names@ == scc_names(scc@.subrange(0, t as int), decls),
                decreases scc@.len() - t,
            {
                let node_index = scc[t];
                assert(sccs@[s as int]@[t as int] < n);
                proof {
                    assert(scc_of(sccs@, node_index) == s);
                    assert(!scc@.subrange(0, t as int).contains(node_index)) by {
                        if scc@.subrange(0, t as int).contains(node_index) {
                            let q = choose|q: int| 0 <= q < t && scc@.subrange(0, t as int)[q] == node_index;
                            assert(scc@[q] == node_index);
                        }
                    }
                }
                if !visited[node_index] {
                    group_names.push(declarations[node_index].name);
                    visited.set(node_index, true);
                }
                proof {
                    let pre = scc@.subrange(0, t as int);
                    let pre1 = scc@.subrange(0, t + 1);
                    assert(pre1 =~= pre.push(node_index));
                    assert(group_names@ =~= scc_names(pre1, decls));
                    assert forall|x: int| 0 <= x < n implies (#[trigger] visited@[x] <==> (scc_of(sccs@, x as usize) > s || pre1.contains(x as usize))) by {
                        if x != node_index as int {
                            assert(pre1.contains(x as usize) <==> pre.contains(x as usize)) by {
                                if pre1.contains(x as usize) {
                                    let q = choose|q: int| 0 <= q < pre1.len() && pre1[q] == x as usize;
                                    assert(pre[q] == x as usize);
                                }
                                if pre.contains(x as usize) {
                                    let q = choose|q: int| 0 <= q < pre.len() && pre[q] == x as usize;
                                    assert(pre1[q] == x as usize);
                                }
                            }
                        } else {
                            assert(pre1[t as int] == node_index);
                        }
                    }
                }
                t = t + 1;
            }
            proof {
                assert(scc@.subrange(0, scc@.len() as int) =~= scc@);
            }
            if group_names.len() > 0 {
                let ghost g0 = groups@;
                groups.push(DefinitionGroup { definitions: group_names, is_recursive });
                proof {
                    assert forall|g: int| 0 <= g < groups@.len() implies group_of_scc(#[trigger] groups@[g], sccs@[sccs@.len() - 1 - g]@, decls) by {
                        if g < g0.len() {
                            assert(groups@[g] == g0[g]);
                        }
                    }
                }
            }
            proof {
                assert forall|x: int| 0 <= x < n implies (#[trigger] visited@[x] <==> scc_of(sccs@, x as usize) >= s) by {
                    if scc@.contains(x as usize) {
                        let q = choose|q: int| 0 <= q < scc@.len() && scc@[q] == x as usize;
                        assert(scc_of(sccs@, sccs@[s as int]@[q]) == s);
                    }
                    if scc_of(sccs@, x as usize) == s {
                        lemma_scc_of(sccs@, x as usize);
                    }
                }
            }
        }
    }
    proof {
        lemma_groups_law(decls, adj, name_to_index@, sccs@, groups@);
        if distinct_decl_names(decls) {
            lemma_groups_partition(decls, adj, name_to_index@, sccs@, groups@);
            lemma_groups_connected(decls, adj, sccs@, groups@);
        }
    }
    groups
}

/// With distinct names, each name lands in one group, and declarations that reach
/// each other share their group.
/// Every edge of `adj` runs from a declaration to one that uses its name.
pub open spec fn edges_are_uses(adj: Seq<Vec<usize>>, decls: Seq<Declaration>) -> bool {
    forall|z: int, y: usize| 0 <= z < adj.len() && #[trigger] adj[z]@.contains(y) ==> uses_decl(decls, y as int, z)
}

/// Declarations whose names share a group reach each other.
pub open spec fn groups_connected(groups: Seq<DefinitionGroup>, decls: Seq<Declaration>) -> bool {
    forall|x: int, y: int| 0 <= x < decls.len() && 0 <= y < decls.len() && #[trigger] same_group(groups, decls[x].name, decls[y].name)
        ==> exists|s1: nat, s2: nat| #[trigger] reaches(decls, x, y, s1) && #[trigger] reaches(decls, y, x, s2)
}

/// A walk along edges that are uses, read backwards, is a chain of uses.
proof fn lemma_walk_reaches(adj: Seq<Vec<usize>>, decls: Seq<Declaration>, p: Seq<usize>, x: usize, y: usize)
    requires
        edges_are_uses(adj, decls),
        is_walk(adj, p, x, y),
        (x as int) < decls.len(),
    ensures
        reaches(decls, y as int, x as int, p.len() as nat),
    decreases p.len(),
{
    if p.len() == 1 {
    } else {
        let q = p.drop_last();
        let z = p[p.len() - 2];
        assert(p[p.len() - 2] == p[p.len() - 2]);
        assert(adj[z as int]@.contains(p[p.len() - 1]));
        assert forall|i: int| #![trigger q[i]] 0 <= i < q.len() - 1 implies (q[i] as int) < adj.len() && adj[q[i] as int]@.contains(q[i + 1]) by {
            assert(q[i] == p[i] && q[i + 1] == p[i + 1]);
            assert(p[i] == p[i]);
        }
        assert(is_walk(adj, q, x, z));
        lemma_walk_reaches(adj, decls, q, x, z);
        assert(uses_decl(decls, y as int, z as int));
    }
}

/// Reaching along edges that are uses means being reached along uses.
proof fn lemma_adj_reach_uses(adj: Seq<Vec<usize>>, decls: Seq<Declaration>, x: usize, y: usize) -> (s: nat)
    requires
        edges_are_uses(adj, decls),
        adj_reach(adj, x, y),
        (x as int) < decls.len(),
    ensures
        reaches(decls, y as int, x as int, s),
{
    reveal(adj_reach);
    let p = choose|p: Seq<usize>| #[trigger] is_walk(adj, p, x, y);
    lemma_walk_reaches(adj, decls, p, x, y);
    p.len() as nat
}

/// Names that share a group belong to declarations that reach each other.
proof fn lemma_groups_connected(decls: Seq<Declaration>, adj: Seq<Vec<usize>>, sccs: Seq<Vec<usize>>, groups: Seq<DefinitionGroup>)
    requires
        distinct_decl_names(decls),
        adj.len() == decls.len(),
        edges_are_uses(adj, decls),
        components_in_range(sccs, decls.len()),
        components_connected(adj, sccs),
        groups.len() == sccs.len(),
        forall|g: int| 0 <= g < groups.len() ==> group_of_scc(#[trigger] groups[g], sccs[sccs.len() - 1 - g]@, decls),
    ensures
        groups_connected(groups, decls),
{
    assert forall|x: int, y: int| 0 <= x < decls.len() && 0 <= y < decls.len() && #[trigger] same_group(groups, decls[x].name, decls[y].name)
        implies exists|s1: nat, s2: nat| #[trigger] reaches(decls, x, y, s1) && #[trigger] reaches(decls, y, x, s2) by {
        let g = choose|g: int| 0 <= g < groups.len() && (#[trigger] groups[g]).definitions@.contains(decls[x].name) && groups[g].definitions@.contains(decls[y].name);
        assert(group_of_scc(groups[g], sccs[sccs.len() - 1 - g]@, decls));
        let t = sccs.len() - 1 - g;
        let scc = sccs[t]@;
        let names = scc_names(scc, decls);
        let kx = choose|k: int| 0 <= k < names.len() && names[k] == decls[x].name;
        let ky = choose|k: int| 0 <= k < names.len() && names[k] == decls[y].name;
        assert(scc[kx] < decls.len() && scc[ky] < decls.len());
        assert(names[kx] == decls[scc[kx] as int].name);
        assert(names[ky] == decls[scc[ky] as int].name);
        if scc[kx] as int != x {
            if (scc[kx] as int) < x {
                assert(decls[scc[kx] as int].name != decls[x].name);
            } else {
                assert(decls[x].name != decls[scc[kx] as int].name);
            }
        }
        if scc[ky] as int != y {
            if (scc[ky] as int) < y {
                assert(decls[scc[ky] as int].name != decls[y].name);
            } else {
                assert(decls[y].name != decls[scc[ky] as int].name);
            }
        }
        assert(adj_reach(adj, sccs[t]@[kx], sccs[t]@[ky]));
        assert(adj_reach(adj, sccs[t]@[ky], sccs[t]@[kx]));
        let s1 = lemma_adj_reach_uses(adj, decls, x as usize, y as usize);
        let s2 = lemma_adj_reach_uses(adj, decls, y as usize, x as usize);
        assert(reaches(decls, y, x, s1) && reaches(decls, x, y, s2));
    }
}

proof fn lemma_groups_partition(
    decls: Seq<Declaration>,
    adj: Seq<Vec<usize>>,
    m: Seq<(InternedString, usize)>,
    sccs: Seq<Vec<usize>>,
    groups: Seq<DefinitionGroup>,
)
    requires
        distinct_decl_names(decls),
        adj.len() == decls.len(),
        decls.len() <= usize::MAX,
        forall|k: int| 0 <= k < m.len() ==> (#[trigger] m[k]).1 < decls.len() && decls[m[k].1 as int].name == m[k].0,
        forall|x: int, k: int| 0 <= x < decls.len() && 0 <= k < decls[x].dependencies@.len()
            && crate::pools::assoc_index(m, #[trigger] decls[x].dependencies@[k]) >= 0
            ==> adj[m[crate::pools::assoc_index(m, decls[x].dependencies@[k])].1 as int]@.contains(x as usize),
        forall|x: int, k: int| 0 <= x < decls.len() && 0 <= k < decls[x].dependencies@.len() && is_declared(decls, #[trigger] decls[x].dependencies@[k])
            ==> crate::pools::assoc_index(m, decls[x].dependencies@[k]) >= 0,
        components_in_range(sccs, decls.len()),
        forall|x: usize| x < decls.len() ==> #[trigger] is_done(sccs, x),
        forall|x: usize, k: int| x < adj.len() && 0 <= k < adj[x as int]@.len() ==> scc_of(sccs, #[trigger] adj[x as int]@[k]) <= scc_of(sccs, x),
        forall|t: int, i: int, j: int| 0 <= t < sccs.len() && 0 <= i < j < sccs[t]@.len() ==> sccs[t]@[i] != sccs[t]@[j],
        forall|t: int, j: int| 0 <= t < sccs.len() && 0 <= j < sccs[t]@.len() ==> scc_of(sccs, #[trigger] sccs[t]@[j]) == t,
        groups.len() == sccs.len(),
        forall|g: int| 0 <= g < groups.len() ==> group_of_scc(#[trigger] groups[g], sccs[sccs.len() - 1 - g]@, decls),
    ensures
        names_once(groups),
        cycles_grouped(groups, decls),
{
    let n = decls.len();
    let len = sccs.len() as int;
    assert forall|g1: int, k1: int, g2: int, k2: int|
        0 <= g1 < groups.len() && 0 <= k1 < groups[g1].definitions@.len() && 0 <= g2 < groups.len() && 0 <= k2
            < groups[g2].definitions@.len() && #[trigger] groups[g1].definitions@[k1] == #[trigger] groups[g2].definitions@[k2]
            implies g1 == g2 && k1 == k2 by {
        let t1 = len - 1 - g1;
        let t2 = len - 1 - g2;
        assert(group_of_scc(groups[g1], sccs[t1]@, decls));
        assert(group_of_scc(groups[g2], sccs[t2]@, decls));
        let x1 = sccs[t1]@[k1];
        let x2 = sccs[t2]@[k2];
        assert(decls[x1 as int].name == groups[g1].definitions@[k1]);
        assert(decls[x2 as int].name == groups[g2].definitions@[k2]);
        assert(x1 < n && x2 < n);
        if x1 != x2 {
            if x1 < x2 {
                assert(decls[x1 as int].name != decls[x2 as int].name);
            } else {
                assert(decls[x2 as int].name != decls[x1 as int].name);
            }
        }
        assert(scc_of(sccs, sccs[t1]@[k1]) == t1);
        assert(scc_of(sccs, sccs[t2]@[k2]) == t2);
        if k1 != k2 {
            if k1 < k2 {
                assert(sccs[t1]@[k1] != sccs[t1]@[k2]);
            } else {
                assert(sccs[t1]@[k2] != sccs[t1]@[k1]);
            }
        }
    }
    // a use goes to a component no earlier
    assert forall|x: int, z: int| #[trigger] uses_decl(decls, x, z) implies scc_of(sccs, x as usize) <= scc_of(sccs, z as usize) by {
        let name = decls[z].name;
        let k = choose|k: int| 0 <= k < decls[x].dependencies@.len() && decls[x].dependencies@[k] == name;
        assert(is_declared(decls, decls[x].dependencies@[k]));
        let idx = crate::pools::assoc_index(m, name);
        crate::pools::lemma_assoc_index(m, name);
        let e = m[idx].1;
        assert(decls[e as int].name == name);
        if e as int != z {
            if (e as int) < z {
                assert(decls[e as int].name != decls[z].name);
            } else {
                assert(decls[z].name != decls[e as int].name);
            }
        }
        assert(adj[e as int]@.contains(x as usize));
        let kk = choose|kk: int| 0 <= kk < adj[e as int]@.len() && adj[e as int]@[kk] == x as usize;
        assert(scc_of(sccs, adj[e as int]@[kk]) <= scc_of(sccs, e));
    }
    assert forall|x: int, y: int, s1: nat, s2: nat|
        0 <= x < n && 0 <= y < n && #[trigger] reaches(decls, x, y, s1) && #[trigger] reaches(decls, y, x, s2)
        implies same_group(groups, decls[x].name, decls[y].name) by {
        lemma_reach_mono(decls, sccs, x, y, s1);
        lemma_reach_mono(decls, sccs, y, x, s2);
        let t = scc_of(sccs, x as usize);
        lemma_scc_of(sccs, x as usize);
        lemma_scc_of(sccs, y as usize);
        assert(is_done(sccs, x as usize));
        let g = len - 1 - t;
        assert(group_of_scc(groups[g], sccs[t]@, decls));
        let qx = choose|q: int| 0 <= q < sccs[t]@.len() && sccs[t]@[q] == x as usize;
        let qy = choose|q: int| 0 <= q < sccs[t]@.len() && sccs[t]@[q] == y as usize;
        assert(groups[g].definitions@[qx] == decls[x].name);
        assert(groups[g].definitions@[qy] == decls[y].name);
    }
}

/// Along a chain of uses, the component index does not decrease.
proof fn lemma_reach_mono(decls: Seq<Declaration>, sccs: Seq<Vec<usize>>, x: int, y: int, s: nat)
    requires
        reaches(decls, x, y, s),
        forall|a: int, b: int| #[trigger] uses_decl(decls, a, b) ==> scc_of(sccs, a as usize) <= scc_of(sccs, b as usize),
    ensures
        scc_of(sccs, x as usize) <= scc_of(sccs, y as usize),
    decreases s,
{
    if x != y {
        let z = choose|z: int| #[trigger] uses_decl(decls, x, z) && reaches(decls, z, y, (s - 1) as nat);
        lemma_reach_mono(decls, sccs, z, y, (s - 1) as nat);
    }
}

/// The groups built from the components of the "used by" graph, last component first,
/// put what a declaration uses no later than the declaration.
proof fn lemma_groups_law(
    decls: Seq<Declaration>,
    adj: Seq<Vec<usize>>,
    m: Seq<(InternedString, usize)>,
    sccs: Seq<Vec<usize>>,
    groups: Seq<DefinitionGroup>,
)
    requires
        adj.len() == decls.len(),
        decls.len() <= usize::MAX,
        forall|k: int| 0 <= k < m.len() ==> (#[trigger] m[k]).1 < decls.len() && decls[m[k].1 as int].name == m[k].0,
        forall|x: int, k: int| 0 <= x < decls.len() && 0 <= k < decls[x].dependencies@.len()
            && crate::pools::assoc_index(m, #[trigger] decls[x].dependencies@[k]) >= 0
            ==> adj[m[crate::pools::assoc_index(m, decls[x].dependencies@[k])].1 as int]@.contains(x as usize),
        forall|x: int, k: int| 0 <= x < decls.len() && 0 <= k < decls[x].dependencies@.len() && is_declared(decls, #[trigger] decls[x].dependencies@[k])
            ==> crate::pools::assoc_index(m, decls[x].dependencies@[k]) >= 0,
        components_in_range(sccs, decls.len()),
        forall|x: usize| x < decls.len() ==> #[trigger] is_done(sccs, x),
        forall|x: usize, k: int| x < adj.len() && 0 <= k < adj[x as int]@.len() ==> scc_of(sccs, #[trigger] adj[x as int]@[k]) <= scc_of(sccs, x),
        forall|t: int| 0 <= t < sccs.len() ==> (#[trigger] sccs[t])@.len() > 0,
        forall|t: int, i: int, j: int| 0 <= t < sccs.len() && 0 <= i < j < sccs[t]@.len() ==> sccs[t]@[i] != sccs[t]@[j],
        groups.len() == sccs.len(),
        forall|g: int| 0 <= g < groups.len() ==> group_of_scc(#[trigger] groups[g], sccs[sccs.len() - 1 - g]@, decls),
    ensures
        dependencies_first(groups, decls),
        names_declared(groups, decls),
        forall|g: int| 0 <= g < groups.len() ==> (#[trigger] groups[g]).definitions@.len() > 0,
        forall|g: int| 0 <= g < groups.len() && (#[trigger] groups[g]).definitions@.len() > 1 ==> groups[g].is_recursive,
        decls.len() == 0 ==> groups.len() == 0,
{
    let n = decls.len();
    let len = sccs.len() as int;
    // where each node's name is
    assert forall|x: usize| x < n implies #[trigger] groups[len - 1 - scc_of(sccs, x)].definitions@.contains(decls[x as int].name) by {
        lemma_scc_of(sccs, x);
        assert(is_done(sccs, x));
        let t = scc_of(sccs, x);
        let q = choose|q: int| 0 <= q < sccs[t]@.len() && sccs[t]@[q] == x;
        assert(group_of_scc(groups[len - 1 - t], sccs[len - 1 - (len - 1 - t)]@, decls));
        assert(scc_names(sccs[t]@, decls)[q] == decls[x as int].name);
    }
    assert forall|d: int| 0 <= d < n implies #[trigger] is_placed(groups, decls, d) by {
        let x = d as usize;
        lemma_scc_of(sccs, x);
        assert(is_done(sccs, x));
        let t = scc_of(sccs, x);
        let g = len - 1 - t;
        assert(groups[len - 1 - scc_of(sccs, x)].definitions@.contains(decls[x as int].name));
        assert(x as int == d);
        assert(groups[g].definitions@.contains(decls[d].name));
        if groups[g].definitions@.len() == 1 {
            let q = choose|q: int| 0 <= q < sccs[t]@.len() && sccs[t]@[q] == x;
            assert(sccs[t]@.len() == 1);
            assert(q == 0);
        }
        assert forall|k: int|
            #![trigger decls[d].dependencies@[k]]
            0 <= k < decls[d].dependencies@.len() && is_declared(decls, decls[d].dependencies@[k]) implies exists|h: int|
                0 <= h <= g && (#[trigger] groups[h]).definitions@.contains(decls[d].dependencies@[k]) by {
            let name = decls[d].dependencies@[k];
            let idx = crate::pools::assoc_index(m, name);
            crate::pools::lemma_assoc_index(m, name);
            let e = m[idx].1;
            assert(adj[e as int]@.contains(x));
            let kk = choose|kk: int| 0 <= kk < adj[e as int]@.len() && adj[e as int]@[kk] == x;
            assert(scc_of(sccs, adj[e as int]@[kk]) <= scc_of(sccs, e));
            lemma_scc_of(sccs, e);
            let h = len - 1 - scc_of(sccs, e);
            assert(groups[h].definitions@.contains(decls[e as int].name));
        }
        assert(placed_in(groups, decls, d, g));
    }
    assert forall|g: int, k: int| 0 <= g < groups.len() && 0 <= k < groups[g].definitions@.len() implies is_declared(decls, #[trigger] groups[g].definitions@[k]) by {
        let t = len - 1 - g;
        assert(group_of_scc(groups[g], sccs[t]@, decls));
        let x = sccs[t]@[k];
        assert(x < n);
        assert(decls[x as int].name == groups[g].definitions@[k]);
    }
    assert forall|g: int| 0 <= g < groups.len() implies (#[trigger] groups[g]).definitions@.len() > 0 by {
        let t = len - 1 - g;
        assert(group_of_scc(groups[g], sccs[t]@, decls));
    }
    assert forall|g: int| 0 <= g < groups.len() && (#[trigger] groups[g]).definitions@.len() > 1 implies groups[g].is_recursive by {
        let t = len - 1 - g;
        assert(group_of_scc(groups[g], sccs[t]@, decls));
    }
    if n == 0 && len > 0 {
        assert(sccs[0]@[0] < n);
    }
}

/// Every adjacency list entry is below `n`.
pub open spec fn edges_in_range_below(adj: Seq<Vec<usize>>, n: nat) -> bool {
    forall|i: int, j: int| 0 <= i < adj.len() && 0 <= j < adj[i]@.len() ==> #[trigger] adj[i]@[j] < n
}

/// The last component that lists node `x`, or -1 when none does.
pub open spec fn scc_of(sccs: Seq<Vec<usize>>, x: usize) -> int
    decreases sccs.len(),
{
    if sccs.len() == 0 {
        -1
    } else if sccs.last()@.contains(x) {
        sccs.len() - 1
    } else {
        scc_of(sccs.drop_last(), x)
    }
}

proof fn lemma_scc_of(sccs: Seq<Vec<usize>>, x: usize)
    ensures
        -1 <= scc_of(sccs, x) < sccs.len(),
        scc_of(sccs, x) >= 0 ==> sccs[scc_of(sccs, x)]@.contains(x),
        forall|s: int| 0 <= s < sccs.len() && (#[trigger] sccs[s])@.contains(x) ==> s <= scc_of(sccs, x),
    decreases sccs.len(),
{
    if sccs.len() > 0 {
        lemma_scc_of(sccs.drop_last(), x);
        assert forall|s: int| 0 <= s < sccs.len() && (#[trigger] sccs[s])@.contains(x) implies s <= scc_of(sccs, x) by {
            if s < sccs.len() - 1 {
                assert(sccs.drop_last()[s] == sccs[s]);
            }
        }
    }
}

proof fn lemma_scc_of_push(sccs: Seq<Vec<usize>>, c: Vec<usize>, x: usize)
    ensures
        scc_of(sccs.push(c), x) == if c@.contains(x) {
            sccs.len() as int
        } else {
            scc_of(sccs, x)
        },
{
    assert(sccs.push(c).drop_last() =~= sccs);
}

/// The nodes that have been given an index.
pub open spec fn visited_set(ind: Seq<Option<usize>>) -> Set<int> {
    Set::new(|x: int| 0 <= x < ind.len() && ind[x] is Some)
}

proof fn lemma_visited_bound(ind: Seq<Option<usize>>, v: int)
    requires
        0 <= v < ind.len(),
        ind[v] is None,
    ensures
        visited_set(ind).finite(),
        visited_set(ind).len() < ind.len(),
{
    let all = vstd::set_lib::set_int_range(0, ind.len() as int);
    vstd::set_lib::lemma_int_range(0, ind.len() as int);
    let rest = all.remove(v);
    assert(visited_set(ind).subset_of(rest));
    vstd::set_lib::lemma_len_subset(visited_set(ind), rest);
}

proof fn lemma_visited_insert(ind: Seq<Option<usize>>, v: int, k: usize)
    requires
        0 <= v < ind.len(),
        ind[v] is None,
    ensures
        visited_set(ind.update(v, Some(k))) == visited_set(ind).insert(v),
        visited_set(ind.update(v, Some(k))).len() == visited_set(ind).len() + 1,
{
    lemma_visited_bound(ind, v);
    assert(visited_set(ind.update(v, Some(k))) =~= visited_set(ind).insert(v));
}

/// `p` is a walk along the edges of `adj` from `x` to `y`.
pub open spec fn is_walk(adj: Seq<Vec<usize>>, p: Seq<usize>, x: usize, y: usize) -> bool {
    &&& p.len() > 0
    &&& p[0] == x
    &&& p[p.len() - 1] == y
    &&& forall|i: int| #![trigger p[i]] 0 <= i < p.len() - 1 ==> (p[i] as int) < adj.len() && adj[p[i] as int]@.contains(p[i + 1])
}

/// Some walk of `adj` leads from `x` to `y`.
#[verifier::opaque]
pub open spec fn adj_reach(adj: Seq<Vec<usize>>, x: usize, y: usize) -> bool {
    exists|p: Seq<usize>| #[trigger] is_walk(adj, p, x, y)
}

proof fn lemma_reach_refl(adj: Seq<Vec<usize>>, x: usize)
    ensures
        adj_reach(adj, x, x),
{
    reveal(adj_reach);
    assert(is_walk(adj, seq![x], x, x));
}

proof fn lemma_reach_edge(adj: Seq<Vec<usize>>, x: usize, y: usize, z: usize)
    requires
        adj_reach(adj, x, y),
        (y as int) < adj.len(),
        adj[y as int]@.contains(z),
    ensures
        adj_reach(adj, x, z),
{
    reveal(adj_reach);
    let p = choose|p: Seq<usize>| #[trigger] is_walk(adj, p, x, y);
    let q = p.push(z);
    assert forall|i: int| #![trigger q[i]] 0 <= i < q.len() - 1 implies (q[i] as int) < adj.len() && adj[q[i] as int]@.contains(q[i + 1]) by {
        if i < p.len() - 1 {
            assert(q[i] == p[i] && q[i + 1] == p[i + 1]);
        } else {
            assert(q[i] == y && q[i + 1] == z);
        }
    }
    assert(is_walk(adj, q, x, z));
}

proof fn lemma_reach_trans(adj: Seq<Vec<usize>>, x: usize, y: usize, z: usize)
    requires
        adj_reach(adj, x, y),
        adj_reach(adj, y, z),
    ensures
        adj_reach(adj, x, z),
{
    reveal(adj_reach);
    let p1 = choose|p: Seq<usize>| #[trigger] is_walk(adj, p, x, y);
    let p2 = choose|p: Seq<usize>| #[trigger] is_walk(adj, p, y, z);
    let q = p1 + p2.subrange(1, p2.len() as int);
    let n1 = p1.len() as int;
    assert forall|i: int| #![trigger q[i]] 0 <= i < q.len() - 1 implies (q[i] as int) < adj.len() && adj[q[i] as int]@.contains(q[i + 1]) by {
        if i < n1 - 1 {
            assert(q[i] == p1[i] && q[i + 1] == p1[i + 1]);
        } else if i == n1 - 1 {
            assert(q[i] == p2[0] && q[i + 1] == p2[1]);
            assert(p2[0] == p2[0]);
        } else {
            assert(q[i] == p2[i - n1 + 1] && q[i + 1] == p2[i - n1 + 2]);
            assert(p2[i - n1 + 1] == p2[i - n1 + 1]);
        }
    }
    if p2.len() == 1 {
        assert(q =~= p1);
    }
    assert(q[q.len() - 1] == z);
    assert(is_walk(adj, q, x, z));
}

/// `x` reaches the open node whose index is its lowlink.
#[verifier::opaque]
pub open spec fn low_reached(adj: Seq<Vec<usize>>, st: Seq<usize>, ind: Seq<Option<usize>>, low: Seq<usize>, x: usize) -> bool {
    exists|j: int| 0 <= j < st.len() && ind[st[j] as int] == Some(low[x as int]) && adj_reach(adj, x, #[trigger] st[j])
}

/// Every open node reaches the open nodes above it and the open node whose index is its
/// lowlink; the nodes of each emitted component reach one another.
#[verifier::opaque]
pub open spec fn reach_inv(adj: Seq<Vec<usize>>, st: Seq<usize>, ind: Seq<Option<usize>>, low: Seq<usize>, sc: Seq<Vec<usize>>) -> bool {
    &&& forall|i: int, j: int| 0 <= i < j < st.len() ==> adj_reach(adj, #[trigger] st[i], #[trigger] st[j])
    &&& forall|i: int| 0 <= i < st.len() ==> #[trigger] low_reached(adj, st, ind, low, st[i])
    &&& forall|s: int, i: int, j: int| 0 <= s < sc.len() && 0 <= i < sc[s]@.len() && 0 <= j < sc[s]@.len()
        ==> adj_reach(adj, #[trigger] sc[s]@[i], #[trigger] sc[s]@[j])
}

/// Opening `v` above open nodes that all reach it keeps `reach_inv`.
proof fn lemma_open_reach(
    adj: Seq<Vec<usize>>,
    ost: Seq<usize>,
    oind: Seq<Option<usize>>,
    olow: Seq<usize>,
    st: Seq<usize>,
    ind: Seq<Option<usize>>,
    low: Seq<usize>,
    sc: Seq<Vec<usize>>,
    v: usize,
    cnt: usize,
)
    requires
        (v as int) < oind.len(),
        oind[v as int] is None,
        forall|i: int| 0 <= i < ost.len() ==> (#[trigger] ost[i] as int) < oind.len() && oind[ost[i] as int] is Some,
        st == ost.push(v),
        ind == oind.update(v as int, Some(cnt)),
        low == olow.update(v as int, cnt),
        oind.len() == olow.len(),
        reach_inv(adj, ost, oind, olow, sc),
        forall|i: int| 0 <= i < ost.len() ==> adj_reach(adj, #[trigger] ost[i], v),
    ensures
        reach_inv(adj, st, ind, low, sc),
{
    reveal(low_reached);
    reveal(reach_inv);
    let p0 = ost.len() as int;
    assert forall|i: int, j: int| 0 <= i < j < st.len() implies adj_reach(adj, #[trigger] st[i], #[trigger] st[j]) by {
        assert(st[i] == ost[i]);
        if j < p0 {
            assert(st[j] == ost[j]);
            assert(adj_reach(adj, ost[i], ost[j]));
        } else {
            assert(adj_reach(adj, ost[i], v));
        }
    }
    assert forall|i: int| 0 <= i < st.len() implies low_reached(adj, st, ind, low, #[trigger] st[i]) by {
        if i < p0 {
            let x = ost[i];
            assert(st[i] == x);
            assert(low_reached(adj, ost, oind, olow, ost[i]));
            let j = choose|j: int| 0 <= j < ost.len() && oind[ost[j] as int] == Some(olow[x as int]) && adj_reach(adj, x, #[trigger] ost[j]);
            assert(st[j] == ost[j]);
            assert(oind[ost[j] as int] is Some);
            assert(ost[j] != v);
            assert(x != v);
            assert(ind[st[j] as int] == Some(low[x as int]));
            assert(adj_reach(adj, x, st[j]));
        } else {
            lemma_reach_refl(adj, v);
            assert(st[i] == v);
            assert(ind[st[p0] as int] == Some(low[v as int]));
            assert(adj_reach(adj, v, st[p0]));
        }
    }
}

/// Emitting the open nodes from `v` up, all of which reach `v`, keeps `reach_inv`.
proof fn lemma_emit_reach(
    adj: Seq<Vec<usize>>,
    st: Seq<usize>,
    ind: Seq<Option<usize>>,
    low: Seq<usize>,
    sc: Seq<Vec<usize>>,
    scc: Vec<usize>,
    p0: int,
    v: usize,
)
    requires
        forall|i: int| 0 <= i < st.len() ==> ind[#[trigger] st[i] as int] is Some && low[st[i] as int] <= ind[st[i] as int].unwrap(),
        forall|i: int, j: int| 0 <= i < j < st.len() ==> ind[st[i] as int].unwrap() < ind[st[j] as int].unwrap(),
        reach_inv(adj, st, ind, low, sc),
        0 <= p0 < st.len(),
        st[p0] == v,
        forall|i: int| p0 <= i < st.len() ==> adj_reach(adj, #[trigger] st[i], v),
        scc@.len() == st.len() - p0,
        forall|j: int| 0 <= j < scc@.len() ==> #[trigger] scc@[j] == st[st.len() - 1 - j],
    ensures
        reach_inv(adj, st.subrange(0, p0), ind, low, sc.push(scc)),
{
    reveal(low_reached);
    reveal(reach_inv);
    let st2 = st.subrange(0, p0);
    let sc2 = sc.push(scc);
    assert forall|i: int, j: int| 0 <= i < j < st2.len() implies adj_reach(adj, #[trigger] st2[i], #[trigger] st2[j]) by {
        assert(st2[i] == st[i] && st2[j] == st[j]);
    }
    assert forall|i: int| 0 <= i < st2.len() implies low_reached(adj, st2, ind, low, #[trigger] st2[i]) by {
        let x = st[i];
        assert(st2[i] == x);
        assert(low_reached(adj, st, ind, low, st[i]));
        let j = choose|j: int| 0 <= j < st.len() && ind[st[j] as int] == Some(low[x as int]) && adj_reach(adj, x, #[trigger] st[j]);
        assert(ind[st[i] as int] is Some);
        assert(low[x as int] <= ind[x as int].unwrap());
        if j >= p0 {
            assert(ind[st[i] as int].unwrap() < ind[st[j] as int].unwrap());
        }
        assert(st2[j] == st[j]);
    }
    assert forall|s: int, i: int, j: int| 0 <= s < sc2.len() && 0 <= i < sc2[s]@.len() && 0 <= j < sc2[s]@.len()
        implies adj_reach(adj, #[trigger] sc2[s]@[i], #[trigger] sc2[s]@[j]) by {
        if s < sc.len() {
            assert(sc2[s] == sc[s]);
        } else {
            let a = st.len() - 1 - i;
            let b = st.len() - 1 - j;
            assert(sc2[s]@[i] == st[a] && sc2[s]@[j] == st[b]);
            assert(adj_reach(adj, st[a], v));
            if b == p0 {
            } else {
                assert(adj_reach(adj, st[p0], st[b]));
            }
            lemma_reach_trans(adj, st[a], v, st[b]);
        }
    }
}

/// Some node of `st` is reached from `x`.
pub open spec fn reaches_below(adj: Seq<Vec<usize>>, x: usize, st: Seq<usize>) -> bool {
    exists|j: int| 0 <= j < st.len() && adj_reach(adj, x, #[trigger] st[j])
}

/// When every node above `v` reaches `v`, every open node does.
proof fn lemma_stack_reaches(adj: Seq<Vec<usize>>, st: Seq<usize>, ind: Seq<Option<usize>>, low: Seq<usize>, sc: Seq<Vec<usize>>, p0: int, v: usize)
    requires
        reach_inv(adj, st, ind, low, sc),
        0 <= p0 < st.len(),
        st[p0] == v,
        forall|i: int| p0 < i < st.len() ==> adj_reach(adj, #[trigger] st[i], v),
    ensures
        forall|i: int| 0 <= i < st.len() ==> adj_reach(adj, #[trigger] st[i], v),
{
    reveal(reach_inv);
    lemma_reach_refl(adj, v);
    assert forall|i: int| 0 <= i < st.len() implies adj_reach(adj, #[trigger] st[i], v) by {
        if i < p0 {
            assert(adj_reach(adj, st[i], st[p0]));
        }
    }
}

/// Each open node reaches a successor `w` of `v` when it reaches `v`.
proof fn lemma_reach_child(adj: Seq<Vec<usize>>, st: Seq<usize>, v: usize, w: usize)
    requires
        (v as int) < adj.len(),
        adj[v as int]@.contains(w),
        forall|i: int| 0 <= i < st.len() ==> adj_reach(adj, #[trigger] st[i], v),
    ensures
        forall|i: int| 0 <= i < st.len() ==> adj_reach(adj, #[trigger] st[i], w),
{
    assert forall|i: int| 0 <= i < st.len() implies adj_reach(adj, #[trigger] st[i], w) by {
        lemma_reach_edge(adj, st[i], v, w);
    }
}

/// After a child's search, the nodes above `v` still reach `v`.
proof fn lemma_above_reach(adj: Seq<Vec<usize>>, st_a: Seq<usize>, st_b: Seq<usize>, p0: int, v: usize)
    requires
        prefix_of(st_a, st_b),
        0 <= p0 < st_a.len(),
        forall|i: int| 0 <= i < st_a.len() ==> adj_reach(adj, #[trigger] st_a[i], v),
        forall|i: int| st_a.len() <= i < st_b.len() ==> reaches_below(adj, #[trigger] st_b[i], st_a),
    ensures
        forall|i: int| p0 < i < st_b.len() ==> adj_reach(adj, #[trigger] st_b[i], v),
{
    assert forall|i: int| p0 < i < st_b.len() implies adj_reach(adj, #[trigger] st_b[i], v) by {
        if i < st_a.len() {
            assert(st_b[i] == st_a[i]);
        } else {
            assert(reaches_below(adj, st_b[i], st_a));
            let j = choose|j: int| 0 <= j < st_a.len() && adj_reach(adj, st_b[i], #[trigger] st_a[j]);
            lemma_reach_trans(adj, st_b[i], st_a[j], v);
        }
    }
}

/// Lowering the lowlink of `v` to the index of an open node that `v` reaches keeps `reach_inv`.
proof fn lemma_low_lowered(adj: Seq<Vec<usize>>, st: Seq<usize>, ind: Seq<Option<usize>>, low: Seq<usize>, sc: Seq<Vec<usize>>, v: usize, jw: int, val: usize)
    requires
        reach_inv(adj, st, ind, low, sc),
        (v as int) < low.len(),
        forall|i: int| 0 <= i < st.len() ==> (#[trigger] st[i] as int) < low.len(),
        0 <= jw < st.len(),
        ind[st[jw] as int] == Some(val),
        adj_reach(adj, v, st[jw]),
    ensures
        reach_inv(adj, st, ind, low.update(v as int, val), sc),
{
    reveal(low_reached);
    reveal(reach_inv);
    let low2 = low.update(v as int, val);
    assert forall|i: int| 0 <= i < st.len() implies low_reached(adj, st, ind, low2, #[trigger] st[i]) by {
        if st[i] == v {
            assert(low2[v as int] == val);
        } else {
            assert(low_reached(adj, st, ind, low, st[i]));
            let j = choose|j: int| 0 <= j < st.len() && ind[st[j] as int] == Some(low[st[i] as int]) && adj_reach(adj, st[i], #[trigger] st[j]);
            assert(low2[st[i] as int] == low[st[i] as int]);
            assert(ind[st[j] as int] == Some(low2[st[i] as int]));
        }
    }
}

/// The lowlink target of an open node `w`, reached along the edge from `v`.
proof fn lemma_child_low(adj: Seq<Vec<usize>>, st: Seq<usize>, ind: Seq<Option<usize>>, low: Seq<usize>, sc: Seq<Vec<usize>>, v: usize, w: usize, iw: int) -> (jw: int)
    requires
        reach_inv(adj, st, ind, low, sc),
        0 <= iw < st.len(),
        st[iw] == w,
        (v as int) < adj.len(),
        adj[v as int]@.contains(w),
    ensures
        0 <= jw < st.len(),
        ind[st[jw] as int] == Some(low[w as int]),
        adj_reach(adj, v, st[jw]),
{
    reveal(low_reached);
    reveal(reach_inv);
    assert(low_reached(adj, st, ind, low, st[iw]));
    let jw = choose|j: int| 0 <= j < st.len() && ind[st[j] as int] == Some(low[w as int]) && adj_reach(adj, w, #[trigger] st[j]);
    lemma_reach_refl(adj, v);
    lemma_reach_edge(adj, v, v, w);
    lemma_reach_trans(adj, v, w, st[jw]);
    jw
}

/// A node that is not a root reaches an open node below it.
proof fn lemma_not_root(adj: Seq<Vec<usize>>, st: Seq<usize>, ind: Seq<Option<usize>>, low: Seq<usize>, sc: Seq<Vec<usize>>, p0: int, v: usize)
    requires
        reach_inv(adj, st, ind, low, sc),
        0 <= p0 < st.len(),
        st[p0] == v,
        ind[v as int] is Some,
        low[v as int] < ind[v as int].unwrap(),
        forall|i: int, j: int| 0 <= i < j < st.len() ==> ind[st[i] as int].unwrap() < ind[st[j] as int].unwrap(),
        forall|i: int| 0 <= i < st.len() ==> ind[#[trigger] st[i] as int] is Some,
        forall|i: int| p0 < i < st.len() ==> adj_reach(adj, #[trigger] st[i], v),
    ensures
        forall|i: int| p0 <= i < st.len() ==> reaches_below(adj, #[trigger] st[i], st.subrange(0, p0)),
{
    reveal(low_reached);
    reveal(reach_inv);
    assert(low_reached(adj, st, ind, low, st[p0]));
    let j = choose|j: int| 0 <= j < st.len() && ind[st[j] as int] == Some(low[v as int]) && adj_reach(adj, v, #[trigger] st[j]);
    if j >= p0 {
        if j > p0 {
            assert(ind[st[p0] as int].unwrap() < ind[st[j] as int].unwrap());
        }
    }
    assert(j < p0);
    let below = st.subrange(0, p0);
    assert(below[j] == st[j]);
    lemma_reach_refl(adj, v);
    assert forall|i: int| p0 <= i < st.len() implies reaches_below(adj, #[trigger] st[i], below) by {
        lemma_reach_trans(adj, st[i], v, st[j]);
        assert(adj_reach(adj, st[i], below[j]));
    }
}

/// The search starts with no open node and no component.
proof fn lemma_reach_inv_start(adj: Seq<Vec<usize>>, ind: Seq<Option<usize>>, low: Seq<usize>)
    ensures
        reach_inv(adj, Seq::<usize>::empty(), ind, low, Seq::<Vec<usize>>::empty()),
{
    reveal(reach_inv);
}

/// The nodes of each emitted component reach one another.
proof fn lemma_components_reach(adj: Seq<Vec<usize>>, st: Seq<usize>, ind: Seq<Option<usize>>, low: Seq<usize>, sc: Seq<Vec<usize>>)
    requires
        reach_inv(adj, st, ind, low, sc),
    ensures
        components_connected(adj, sc),
{
    reveal(reach_inv);
}

/// The nodes of each component reach one another.
pub open spec fn components_connected(adj: Seq<Vec<usize>>, sc: Seq<Vec<usize>>) -> bool {
    forall|s: int, i: int, j: int| 0 <= s < sc.len() && 0 <= i < sc[s]@.len() && 0 <= j < sc[s]@.len()
        ==> adj_reach(adj, #[trigger] sc[s]@[i], #[trigger] sc[s]@[j])
}

/// Node `x` is listed in some emitted component.
pub open spec fn is_done(sccs: Seq<Vec<usize>>, x: usize) -> bool {
    scc_of(sccs, x) >= 0
}

/// The state of Tarjan's search between steps: `cnt` indices handed out, the stack of
/// open nodes with increasing indices, each lowlink at most its node's index and at
/// least the index of the bottom of the stack, emitted components disjoint and closed:
/// what a finished node reaches lies in its own component or an earlier one.
pub open spec fn tarjan_inv(
    adj: Seq<Vec<usize>>,
    cnt: int,
    st: Seq<usize>,
    ind: Seq<Option<usize>>,
    low: Seq<usize>,
    ons: Seq<bool>,
    sc: Seq<Vec<usize>>,
) -> bool {
    let n = adj.len();
    &&& edges_in_range(adj)
    &&& ind.len() == n && low.len() == n && ons.len() == n
    &&& forall|x: int| 0 <= x < n && (#[trigger] ind[x]) is Some ==> ind[x].unwrap() < cnt && low[x] <= ind[x].unwrap()
    &&& visited_set(ind).finite() && cnt == visited_set(ind).len()
    &&& forall|i: int| 0 <= i < st.len() ==> #[trigger] st[i] < n && ind[st[i] as int] is Some && ons[st[i] as int]
    &&& forall|i: int, j: int| 0 <= i < j < st.len() ==> ind[st[i] as int].unwrap() < ind[st[j] as int].unwrap()
    &&& forall|x: int| 0 <= x < n && #[trigger] ons[x] ==> st.contains(x as usize)
    &&& forall|i: int| 0 <= i < st.len() ==> low[#[trigger] st[i] as int] >= ind[st[0] as int].unwrap()
    &&& forall|x: usize| x < n ==> (#[trigger] is_done(sc, x) <==> (ind[x as int] is Some && !ons[x as int]))
    &&& components_in_range(sc, n)
    &&& forall|s: int, i: int, j: int| 0 <= s < sc.len() && 0 <= i < j < sc[s]@.len() ==> sc[s]@[i] != sc[s]@[j]
    &&& forall|s: int, j: int| 0 <= s < sc.len() && 0 <= j < sc[s]@.len() ==> scc_of(sc, #[trigger] sc[s]@[j]) == s
    &&& forall|x: usize, k: int| x < n && is_done(sc, x) && 0 <= k < adj[x as int]@.len() ==> 0 <= scc_of(sc, #[trigger] adj[x as int]@[k]) <= scc_of(sc, x)
}

/// The edges `0..e` of node `x` lead to emitted components or to open nodes whose
/// index is at least the lowlink of `x`.
pub open spec fn settled_upto(
    adj: Seq<Vec<usize>>,
    ind: Seq<Option<usize>>,
    low: Seq<usize>,
    ons: Seq<bool>,
    sc: Seq<Vec<usize>>,
    x: usize,
    e: int,
) -> bool {
    forall|k: int| 0 <= k < e ==> is_done(sc, #[trigger] adj[x as int]@[k]) || (ons[adj[x as int]@[k] as int]
        && low[x as int] <= ind[adj[x as int]@[k] as int].unwrap())
}

pub open spec fn settled(
    adj: Seq<Vec<usize>>,
    ind: Seq<Option<usize>>,
    low: Seq<usize>,
    ons: Seq<bool>,
    sc: Seq<Vec<usize>>,
    x: usize,
) -> bool {
    settled_upto(adj, ind, low, ons, sc, x, adj[x as int]@.len() as int)
}

/// A component listed before stays where it is when more are emitted.
proof fn lemma_done_stable(a: Seq<Vec<usize>>, b: Seq<Vec<usize>>, y: usize)
    requires
        prefix_of(a, b),
        forall|s: int, j: int| 0 <= s < b.len() && 0 <= j < b[s]@.len() ==> scc_of(b, #[trigger] b[s]@[j]) == s,
        is_done(a, y),
    ensures
        scc_of(b, y) == scc_of(a, y),
{
    lemma_scc_of(a, y);
    let s0 = scc_of(a, y);
    assert(b[s0] == a[s0]);
    let j = choose|j: int| 0 <= j < a[s0]@.len() && a[s0]@[j] == y;
    assert(b[s0]@[j] == y);
}

/// What was settled stays settled as the search goes on.
proof fn lemma_settled_stable(
    adj: Seq<Vec<usize>>,
    cnt_a: int,
    st_a: Seq<usize>,
    ind_a: Seq<Option<usize>>,
    low_a: Seq<usize>,
    ons_a: Seq<bool>,
    sc_a: Seq<Vec<usize>>,
    cnt_b: int,
    st_b: Seq<usize>,
    ind_b: Seq<Option<usize>>,
    low_b: Seq<usize>,
    ons_b: Seq<bool>,
    sc_b: Seq<Vec<usize>>,
    x: usize,
    e: int,
)
    requires
        tarjan_inv(adj, cnt_a, st_a, ind_a, low_a, ons_a, sc_a),
        tarjan_inv(adj, cnt_b, st_b, ind_b, low_b, ons_b, sc_b),
        forall|y: int| 0 <= y < adj.len() && (#[trigger] ind_a[y]) is Some ==> ind_b[y] == ind_a[y] && low_b[y] == low_a[y],
        prefix_of(st_a, st_b),
        prefix_of(sc_a, sc_b),
        x < adj.len(),
        ind_a[x as int] is Some,
        0 <= e <= adj[x as int]@.len(),
        settled_upto(adj, ind_a, low_a, ons_a, sc_a, x, e),
    ensures
        settled_upto(adj, ind_b, low_b, ons_b, sc_b, x, e),
{
    assert forall|k: int| 0 <= k < e implies is_done(sc_b, #[trigger] adj[x as int]@[k]) || (ons_b[adj[x as int]@[k] as int]
        && low_b[x as int] <= ind_b[adj[x as int]@[k] as int].unwrap()) by {
        let y = adj[x as int]@[k];
        assert(y < adj.len());
        if is_done(sc_a, y) {
            lemma_done_stable(sc_a, sc_b, y);
        } else {
            assert(ons_a[y as int]);
            assert(st_a.contains(y));
            let i = choose|i: int| 0 <= i < st_a.len() && st_a[i] == y;
            assert(st_b[i] == y);
            assert(ind_a[y as int] is Some);
        }
    }
}

/// The strongly connected components of a graph, each listed after every component
/// reachable from it (Tarjan's algorithm); every node is listed in exactly one.
fn find_strongly_connected_components(adj_list: &Vec<Vec<usize>>) -> (r: Vec<Vec<usize>>)
    requires
        edges_in_range(adj_list@),
    ensures
        components_in_range(r@, adj_list@.len()),
        adj_list@.len() == 0 ==> r@.len() == 0,
        forall|x: usize| x < adj_list@.len() ==> #[trigger] is_done(r@, x),
        forall|s: int, i: int, j: int| 0 <= s < r@.len() && 0 <= i < j < r@[s]@.len() ==> r@[s]@[i] != r@[s]@[j],
        forall|s: int, j: int| 0 <= s < r@.len() && 0 <= j < r@[s]@.len() ==> scc_of(r@, #[trigger] r@[s]@[j]) == s,
        forall|x: usize, k: int| x < adj_list@.len() && 0 <= k < adj_list@[x as int]@.len() ==> scc_of(r@, #[trigger] adj_list@[x as int]@[k]) <= scc_of(r@, x),
        forall|s: int| 0 <= s < r@.len() ==> (#[trigger] r@[s])@.len() > 0,
        components_connected(adj_list@, r@),
{
    let n = adj_list.len();
    let mut index: usize = 0;
    let mut stack: Vec<usize> = Vec::new();
    let mut indices: Vec<Option<usize>> = Vec::new();
    let mut lowlinks: Vec<usize> = Vec::new();
    let mut on_stack: Vec<bool> = Vec::new();
    let mut sccs: Vec<Vec<usize>> = Vec::new();
    let mut i: usize = 0;
    while i < n
        invariant
            i <= n,
            indices@.len() == i,
            lowlinks@.len() == i,
            on_stack@.len() == i,
            forall|k: int| 0 <= k < i ==> (#[trigger] indices@[k]) is None && !on_stack@[k],
        decreases n - i,
    {
        indices.push(None);
        lowlinks.push(0);
        on_stack.push(false);
        proof {
            assert forall|k: int| 0 <= k < i + 1 implies (#[trigger] indices@[k]) is None && !on_stack@[k] by {
                if k < i {
                    assert(indices@[k] == indices@.drop_last()[k]);
                    assert(on_stack@[k] == on_stack@.drop_last()[k]);
                }
            }
        }
        i = i + 1;
    }
    proof {
        assert(visited_set(indices@) =~= Set::<int>::empty()) by {
            assert forall|x: int| !visited_set(indices@).contains(x) by {
                if 0 <= x < n {
                    assert(indices@[x] is None);
                }
            }
        }
        assert forall|x: usize| x < n implies (#[trigger] is_done(sccs@, x) <==> (indices@[x as int] is Some && !on_stack@[x as int])) by {
            assert(indices@[x as int] is None);
        }
        assert forall|x: int| 0 <= x < n && #[trigger] on_stack@[x] implies stack@.contains(x as usize) by {
            assert(indices@[x] is None);
        }
    }
    proof {
        lemma_reach_inv_start(adj_list@, indices@, lowlinks@);
        assert(stack@ =~= Seq::<usize>::empty());
        assert(sccs@ =~= Seq::<Vec<usize>>::empty());
    }
    let mut v: usize = 0;
    while v < n
        invariant
            v <= n,
            n == adj_list@.len(),
            tarjan_inv(adj_list@, index as int, stack@, indices@, lowlinks@, on_stack@, sccs@),
            stack@.len() == 0,
            forall|x: int| 0 <= x < v ==> (#[trigger] indices@[x]) is Some,
            forall|s: int| 0 <= s < sccs@.len() ==> (#[trigger] sccs@[s])@.len() > 0,
            reach_inv(adj_list@, stack@, indices@, lowlinks@, sccs@),
        decreases n - v,
    {
        if indices[v].is_none() {
            let ghost ind_a = indices@;
            let ghost cnt_a = index;
            strongconnect(v, &mut index, &mut stack, &mut indices, &mut lowlinks, &mut on_stack, &mut sccs, adj_list, n);
            proof {
                if on_stack@[v as int] {
                    assert(stack@[0] == v);
                    assert(lowlinks@[stack@[0] as int] >= indices@[stack@[0] as int].unwrap());
                }
                assert forall|x: int| 0 <= x < v + 1 implies (#[trigger] indices@[x]) is Some by {
                    if x < v {
                        assert(ind_a[x] is Some);
                    }
                }
            }
        }
        v = v + 1;
    }
    proof {
        assert forall|x: usize| x < adj_list@.len() implies #[trigger] is_done(sccs@, x) by {
            assert(indices@[x as int] is Some);
            if on_stack@[x as int] {
                assert(stack@.contains(x));
            }
        }
        assert forall|x: usize, k: int| x < adj_list@.len() && 0 <= k < adj_list@[x as int]@.len() implies scc_of(sccs@, #[trigger] adj_list@[x as int]@[k]) <= scc_of(sccs@, x) by {
            assert(is_done(sccs@, x));
        }
        if n == 0 && sccs@.len() > 0 {
            assert(sccs@[0]@.len() > 0);
            assert(sccs@[0]@[0] < n);
        }
        lemma_components_reach(adj_list@, stack@, indices@, lowlinks@, sccs@);
    }
    sccs
}

/// Emitting the open nodes from `v` up as one component, when `v` is a root whose
/// search is finished, keeps the search state sound.
proof fn lemma_emit(
    adj: Seq<Vec<usize>>,
    cnt: int,
    st: Seq<usize>,
    ind: Seq<Option<usize>>,
    low: Seq<usize>,
    ons: Seq<bool>,
    ons2: Seq<bool>,
    sc: Seq<Vec<usize>>,
    scc: Vec<usize>,
    p0: int,
    v: usize,
)
    requires
        tarjan_inv(adj, cnt, st, ind, low, ons, sc),
        0 <= p0 < st.len(),
        st[p0] == v,
        low[v as int] == ind[v as int].unwrap(),
        forall|i: int| p0 <= i < st.len() ==> settled(adj, ind, low, ons, sc, #[trigger] st[i]),
        forall|i: int| p0 <= i < st.len() ==> low[v as int] <= low[#[trigger] st[i] as int],
        scc@.len() == st.len() - p0,
        forall|j: int| 0 <= j < scc@.len() ==> #[trigger] scc@[j] == st[st.len() - 1 - j],
        ons2.len() == ons.len(),
        forall|x: int| 0 <= x < ons.len() ==> #[trigger] ons2[x] == (ons[x] && !scc@.contains(x as usize)),
    ensures
        tarjan_inv(adj, cnt, st.subrange(0, p0), ind, low, ons2, sc.push(scc)),
{
    let n = adj.len();
    let sc2 = sc.push(scc);
    let st2 = st.subrange(0, p0);
    // members of the new component are exactly the stack from `p0` up
    assert forall|y: usize| #[trigger] scc@.contains(y) <==> (exists|i: int| p0 <= i < st.len() && st[i] == y) by {
        if scc@.contains(y) {
            let j = choose|j: int| 0 <= j < scc@.len() && scc@[j] == y;
            assert(st[st.len() - 1 - j] == y);
        }
        if exists|i: int| p0 <= i < st.len() && st[i] == y {
            let i = choose|i: int| p0 <= i < st.len() && st[i] == y;
            assert(scc@[st.len() - 1 - i] == y);
        }
    }
    assert forall|y: usize| #[trigger] scc_of(sc2, y) == if scc@.contains(y) {
        sc.len() as int
    } else {
        scc_of(sc, y)
    } by {
        lemma_scc_of_push(sc, scc, y);
    }
    // the remaining stack
    assert forall|i: int| 0 <= i < st2.len() implies #[trigger] st2[i] < n && ind[st2[i] as int] is Some && ons2[st2[i] as int] by {
        assert(st2[i] == st[i]);
        assert(st[i] < n);
        if scc@.contains(st[i]) {
            let k = choose|k: int| p0 <= k < st.len() && st[k] == st[i];
            assert(ind[st[i] as int].unwrap() < ind[st[k] as int].unwrap());
        }
    }
    assert forall|x: int| 0 <= x < n && #[trigger] ons2[x] implies st2.contains(x as usize) by {
        assert(st.contains(x as usize));
        let i = choose|i: int| 0 <= i < st.len() && st[i] == x as usize;
        if i >= p0 {
            assert(scc@.contains(x as usize));
        }
        assert(st2[i] == x as usize);
    }
    assert forall|i: int, j: int| 0 <= i < j < st2.len() implies ind[st2[i] as int].unwrap() < ind[st2[j] as int].unwrap() by {
        assert(st2[i] == st[i] && st2[j] == st[j]);
    }
    assert forall|i: int| 0 <= i < st2.len() implies low[#[trigger] st2[i] as int] >= ind[st2[0] as int].unwrap() by {
        assert(st2[i] == st[i] && st2[0] == st[0]);
    }
    // finished nodes
    assert forall|x: usize| x < n implies (#[trigger] is_done(sc2, x) <==> (ind[x as int] is Some && !ons2[x as int])) by {
        if scc@.contains(x) {
            let i = choose|i: int| p0 <= i < st.len() && st[i] == x;
            assert(ind[st[i] as int] is Some);
        } else {
            assert(is_done(sc, x) <==> (ind[x as int] is Some && !ons[x as int]));
        }
    }
    assert forall|s: int, i: int, j: int| 0 <= s < sc2.len() && 0 <= i < j < sc2[s]@.len() implies sc2[s]@[i] != sc2[s]@[j] by {
        if s == sc.len() {
            let a = st.len() - 1 - i;
            let b = st.len() - 1 - j;
            assert(ind[st[b] as int].unwrap() < ind[st[a] as int].unwrap());
        } else {
            assert(sc2[s] == sc[s]);
        }
    }
    assert forall|s: int, j: int| 0 <= s < sc2.len() && 0 <= j < sc2[s]@.len() implies #[trigger] sc2[s]@[j] < n by {
        if s == sc.len() {
            assert(scc@[j] == st[st.len() - 1 - j]);
        } else {
            assert(sc2[s] == sc[s]);
        }
    }
    assert forall|s: int, j: int| 0 <= s < sc2.len() && 0 <= j < sc2[s]@.len() implies scc_of(sc2, #[trigger] sc2[s]@[j]) == s by {
        if s == sc.len() {
            assert(scc@.contains(scc@[j]));
        } else {
            assert(sc2[s] == sc[s]);
            let y = sc[s]@[j];
            assert(scc_of(sc, y) == s);
            assert(is_done(sc, y));
            assert(y < n);
            if scc@.contains(y) {
                let i = choose|i: int| p0 <= i < st.len() && st[i] == y;
                assert(ons[st[i] as int]);
            }
        }
    }
    assert forall|x: usize, k: int| x < n && is_done(sc2, x) && 0 <= k < adj[x as int]@.len() implies 0 <= scc_of(sc2, #[trigger] adj[x as int]@[k]) <= scc_of(sc2, x) by {
        let y = adj[x as int]@[k];
        assert(y < n);
        if scc@.contains(x) {
            let i = choose|i: int| p0 <= i < st.len() && st[i] == x;
            assert(settled(adj, ind, low, ons, sc, st[i]));
            assert(is_done(sc, y) || (ons[y as int] && low[x as int] <= ind[y as int].unwrap()));
            if is_done(sc, y) {
                lemma_scc_of(sc, y);
                if scc@.contains(y) {
                    let i2 = choose|i2: int| p0 <= i2 < st.len() && st[i2] == y;
                    assert(ons[st[i2] as int]);
                }
            } else {
                assert(st.contains(y));
                let iy = choose|iy: int| 0 <= iy < st.len() && st[iy] == y;
                assert(low[v as int] <= low[x as int]);
                if iy < p0 {
                    assert(ind[st[iy] as int].unwrap() < ind[st[p0] as int].unwrap());
                }
                assert(scc@.contains(y));
            }
        } else {
            assert(is_done(sc, x));
            assert(0 <= scc_of(sc, y) <= scc_of(sc, x));
            lemma_scc_of(sc, x);
            if scc@.contains(y) {
                let i2 = choose|i2: int| p0 <= i2 < st.len() && st[i2] == y;
                assert(ons[st[i2] as int]);
                assert(is_done(sc, y));
            }
        }
    }
}

/// After the search from a successor returns, the node being searched keeps the
/// edges it has settled, and the open nodes above it stay settled.
proof fn lemma_after_child(
    adj: Seq<Vec<usize>>,
    cnt_a: int,
    st_a: Seq<usize>,
    ind_a: Seq<Option<usize>>,
    low_a: Seq<usize>,
    ons_a: Seq<bool>,
    sc_a: Seq<Vec<usize>>,
    cnt_b: int,
    st_b: Seq<usize>,
    ind_b: Seq<Option<usize>>,
    low_b: Seq<usize>,
    ons_b: Seq<bool>,
    sc_b: Seq<Vec<usize>>,
    v: usize,
    e: int,
    p0: int,
)
    requires
        tarjan_inv(adj, cnt_a, st_a, ind_a, low_a, ons_a, sc_a),
        tarjan_inv(adj, cnt_b, st_b, ind_b, low_b, ons_b, sc_b),
        forall|y: int| 0 <= y < adj.len() && (#[trigger] ind_a[y]) is Some ==> ind_b[y] == ind_a[y] && low_b[y] == low_a[y],
        prefix_of(st_a, st_b),
        prefix_of(sc_a, sc_b),
        v < adj.len(),
        0 <= p0 < st_a.len(),
        st_a[p0] == v,
        0 <= e <= adj[v as int]@.len(),
        settled_upto(adj, ind_a, low_a, ons_a, sc_a, v, e),
        forall|i: int| p0 < i < st_a.len() ==> settled(adj, ind_a, low_a, ons_a, sc_a, #[trigger] st_a[i])
            && low_a[v as int] <= low_a[st_a[i] as int],
    ensures
        settled_upto(adj, ind_b, low_b, ons_b, sc_b, v, e),
        forall|i: int| p0 < i < st_a.len() ==> settled(adj, ind_b, low_b, ons_b, sc_b, #[trigger] st_b[i])
            && low_b[v as int] <= low_b[st_b[i] as int],
        st_b[p0] == v,
        low_b[v as int] == low_a[v as int],
{
    assert(ind_a[v as int] is Some);
    lemma_settled_stable(adj, cnt_a, st_a, ind_a, low_a, ons_a, sc_a, cnt_b, st_b, ind_b, low_b, ons_b, sc_b, v, e);
    assert forall|i: int| p0 < i < st_a.len() implies settled(adj, ind_b, low_b, ons_b, sc_b, #[trigger] st_b[i])
        && low_b[v as int] <= low_b[st_b[i] as int] by {
        let x = st_a[i];
        assert(st_b[i] == x);
        assert(x < adj.len());
        assert(ind_a[x as int] is Some);
        assert(settled(adj, ind_a, low_a, ons_a, sc_a, x));
        lemma_settled_stable(adj, cnt_a, st_a, ind_a, low_a, ons_a, sc_a, cnt_b, st_b, ind_b, low_b, ons_b, sc_b, x, adj[x as int]@.len() as int);
    }
    assert(st_b[p0] == st_a[p0]);
}

/// Lowering the lowlink of the node being searched, to no less than the index of the
/// bottom of the stack, after its edge `e` has been looked at, keeps the search state
/// sound and settles that edge.
proof fn lemma_lower_low(
    adj: Seq<Vec<usize>>,
    cnt: int,
    st: Seq<usize>,
    ind: Seq<Option<usize>>,
    low: Seq<usize>,
    low2: Seq<usize>,
    ons: Seq<bool>,
    sc: Seq<Vec<usize>>,
    v: usize,
    e: int,
    p0: int,
)
    requires
        tarjan_inv(adj, cnt, st, ind, low, ons, sc),
        v < adj.len(),
        0 <= p0 < st.len(),
        st[p0] == v,
        low2 == low.update(v as int, low2[v as int]),
        low2[v as int] <= low[v as int],
        low2[v as int] >= ind[st[0] as int].unwrap(),
        0 <= e < adj[v as int]@.len(),
        settled_upto(adj, ind, low, ons, sc, v, e),
        is_done(sc, adj[v as int]@[e]) || (ons[adj[v as int]@[e] as int] && low2[v as int] <= ind[adj[v as int]@[e] as int].unwrap()),
        forall|i: int| p0 < i < st.len() ==> settled(adj, ind, low, ons, sc, #[trigger] st[i])
            && low2[v as int] <= low[st[i] as int],
    ensures
        tarjan_inv(adj, cnt, st, ind, low2, ons, sc),
        settled_upto(adj, ind, low2, ons, sc, v, e + 1),
        forall|i: int| p0 < i < st.len() ==> settled(adj, ind, low2, ons, sc, #[trigger] st[i])
            && low2[v as int] <= low2[st[i] as int],
{
    let n = adj.len();
    assert forall|i: int| p0 < i < st.len() implies settled(adj, ind, low2, ons, sc, #[trigger] st[i])
        && low2[v as int] <= low2[st[i] as int] by {
        let x = st[i];
        assert(ind[st[p0] as int].unwrap() < ind[st[i] as int].unwrap());
        assert(x != v);
        assert(settled(adj, ind, low, ons, sc, x));
        assert(low2[x as int] == low[x as int]);
    }
    assert forall|x: int| 0 <= x < n && (#[trigger] ind[x]) is Some implies ind[x].unwrap() < cnt && low2[x] <= ind[x].unwrap() by {
        if x == v as int {
            assert(low[x] <= ind[x].unwrap());
        }
    }
    assert forall|i: int| 0 <= i < st.len() implies low2[#[trigger] st[i] as int] >= ind[st[0] as int].unwrap() by {
        if st[i] != v {
            assert(low2[st[i] as int] == low[st[i] as int]);
        }
    }
}

/// Gives `v` the next index and lowlink and opens it on the stack.
fn open_node(
    v: usize,
    index: &mut usize,
    stack: &mut Vec<usize>,
    indices: &mut Vec<Option<usize>>,
    lowlinks: &mut Vec<usize>,
    on_stack: &mut Vec<bool>,
    sccs: &Vec<Vec<usize>>,
    adj_list: &Vec<Vec<usize>>,
)
    requires
        tarjan_inv(adj_list@, *old(index) as int, old(stack)@, old(indices)@, old(lowlinks)@, old(on_stack)@, sccs@),
        v < adj_list@.len(),
        old(indices)@[v as int] is None,
        reach_inv(adj_list@, old(stack)@, old(indices)@, old(lowlinks)@, sccs@),
        forall|i: int| 0 <= i < old(stack)@.len() ==> adj_reach(adj_list@, #[trigger] old(stack)@[i], v),
    ensures
        tarjan_inv(adj_list@, *final(index) as int, final(stack)@, final(indices)@, final(lowlinks)@, final(on_stack)@, sccs@),
        reach_inv(adj_list@, final(stack)@, final(indices)@, final(lowlinks)@, sccs@),
        *final(index) == *old(index) + 1,
        final(indices)@ == old(indices)@.update(v as int, Some(*old(index))),
        final(lowlinks)@ == old(lowlinks)@.update(v as int, *old(index)),
        final(on_stack)@ == old(on_stack)@.update(v as int, true),
        final(stack)@ == old(stack)@.push(v),
{
    let n = adj_list.len();
    let ghost p0 = stack@.len() as int;
    proof {
        lemma_visited_bound(indices@, v as int);
        lemma_visited_insert(indices@, v as int, *index);
    }
    indices.set(v, Some(*index));
    lowlinks.set(v, *index);
    *index = *index + 1;
    stack.push(v);
    on_stack.set(v, true);
    proof {
        let st = stack@;
        assert(st[p0] == v);
        assert forall|x: int| 0 <= x < n && (#[trigger] indices@[x]) is Some implies indices@[x].unwrap() < *index && lowlinks@[x] <= indices@[x].unwrap() by {
            if x != v {
                assert(old(indices)@[x] is Some);
            }
        }
        assert forall|i: int| 0 <= i < st.len() implies #[trigger] st[i] < n && indices@[st[i] as int] is Some && on_stack@[st[i] as int] by {
            if i < p0 {
                assert(st[i] == old(stack)@[i]);
            }
        }
        assert forall|i: int, j: int| 0 <= i < j < st.len() implies indices@[st[i] as int].unwrap() < indices@[st[j] as int].unwrap() by {
            assert(st[i] == old(stack)@[i]);
            assert(old(indices)@[st[i] as int] is Some);
            if j < p0 {
                assert(st[j] == old(stack)@[j]);
            }
        }
        assert forall|x: int| 0 <= x < n && #[trigger] on_stack@[x] implies st.contains(x as usize) by {
            if x != v {
                assert(old(stack)@.contains(x as usize));
                let i = choose|i: int| 0 <= i < old(stack)@.len() && old(stack)@[i] == x as usize;
                assert(st[i] == x as usize);
            } else {
                assert(st[p0] == v);
            }
        }
        assert forall|i: int| 0 <= i < st.len() implies lowlinks@[#[trigger] st[i] as int] >= indices@[st[0] as int].unwrap() by {
            if p0 > 0 {
                assert(st[0] == old(stack)@[0]);
                assert(old(indices)@[st[0] as int] is Some);
                if i < p0 {
                    assert(st[i] == old(stack)@[i]);
                }
            }
        }
        assert forall|x: usize| x < n implies (#[trigger] is_done(sccs@, x) <==> (indices@[x as int] is Some && !on_stack@[x as int])) by {
            assert(is_done(sccs@, x) <==> (old(indices)@[x as int] is Some && !old(on_stack)@[x as int]));
        }
        lemma_open_reach(adj_list@, old(stack)@, old(indices)@, old(lowlinks)@, stack@, indices@, lowlinks@, sccs@, v, *old(index));
    }
}

/// Pops the open nodes from `v` up and emits them as one component; `v` is a root at
/// position `p0` of the stack whose search is finished.
fn emit_component(
    v: usize,
    p0: Ghost<int>,
    index: &usize,
    stack: &mut Vec<usize>,
    indices: &Vec<Option<usize>>,
    lowlinks: &Vec<usize>,
    on_stack: &mut Vec<bool>,
    sccs: &mut Vec<Vec<usize>>,
    adj_list: &Vec<Vec<usize>>,
)
    requires
        tarjan_inv(adj_list@, *index as int, old(stack)@, indices@, lowlinks@, old(on_stack)@, old(sccs)@),
        0 <= p0@ < old(stack)@.len(),
        old(stack)@[p0@] == v,
        lowlinks@[v as int] == indices@[v as int].unwrap(),
        forall|i: int| p0@ <= i < old(stack)@.len() ==> settled(adj_list@, indices@, lowlinks@, old(on_stack)@, old(sccs)@, #[trigger] old(stack)@[i])
            && lowlinks@[v as int] <= lowlinks@[old(stack)@[i] as int],
        forall|s: int| 0 <= s < old(sccs)@.len() ==> (#[trigger] old(sccs)@[s])@.len() > 0,
        reach_inv(adj_list@, old(stack)@, indices@, lowlinks@, old(sccs)@),
        forall|i: int| p0@ <= i < old(stack)@.len() ==> adj_reach(adj_list@, #[trigger] old(stack)@[i], v),
    ensures
        tarjan_inv(adj_list@, *index as int, final(stack)@, indices@, lowlinks@, final(on_stack)@, final(sccs)@),
        reach_inv(adj_list@, final(stack)@, indices@, lowlinks@, final(sccs)@),
        final(stack)@ == old(stack)@.subrange(0, p0@),
        prefix_of(old(sccs)@, final(sccs)@),
        !final(on_stack)@[v as int],
        forall|s: int| 0 <= s < final(sccs)@.len() ==> (#[trigger] final(sccs)@[s])@.len() > 0,
{
    let n = adj_list.len();
    let ghost st1 = stack@;
    let ghost ons1 = on_stack@;
    let ghost p0 = p0@;
    proof {
        assert forall|i: int, j: int| 0 <= i < j < st1.len() implies st1[i] != st1[j] by {
            assert(indices@[st1[i] as int].unwrap() < indices@[st1[j] as int].unwrap());
        }
    }
    let mut scc: Vec<usize> = Vec::new();
    loop
        invariant_except_break
            p0 < stack@.len(),
        invariant
            n == adj_list@.len(),
            0 <= p0 < st1.len(),
            st1[p0] == v,
            stack@.len() <= st1.len(),
            stack@ == st1.subrange(0, stack@.len() as int),
            scc@.len() == st1.len() - stack@.len(),
            forall|j: int| 0 <= j < scc@.len() ==> #[trigger] scc@[j] == st1[st1.len() - 1 - j],
            on_stack@.len() == n,
            forall|x: int| 0 <= x < n ==> #[trigger] on_stack@[x] == (ons1[x] && !scc@.contains(x as usize)),
            forall|i: int| 0 <= i < st1.len() ==> #[trigger] st1[i] < n,
            forall|i: int, j: int| 0 <= i < j < st1.len() ==> st1[i] != st1[j],
        ensures
            stack@.len() == p0,
            stack@ == st1.subrange(0, p0),
            scc@.len() == st1.len() - p0,
            forall|j: int| 0 <= j < scc@.len() ==> #[trigger] scc@[j] == st1[st1.len() - 1 - j],
            forall|x: int| 0 <= x < n ==> #[trigger] on_stack@[x] == (ons1[x] && !scc@.contains(x as usize)),
        decreases stack@.len(),
    {
        match stack.pop() {
            Some(w) => {
                let ghost scc0 = scc@;
                let ghost top = stack@.len() as int;
                assert(w == st1[top]);
                on_stack.set(w, false);
                scc.push(w);
                proof {
                    assert forall|x: int| 0 <= x < n implies #[trigger] on_stack@[x] == (ons1[x] && !scc@.contains(x as usize)) by {
                        if x == w as int {
                            assert(scc@[scc@.len() - 1] == w);
                        } else {
                            assert(scc@.contains(x as usize) <==> scc0.contains(x as usize)) by {
                                if scc@.contains(x as usize) {
                                    let j = choose|j: int| 0 <= j < scc@.len() && scc@[j] == x as usize;
                                    assert(scc0[j] == x as usize);
                                }
                                if scc0.contains(x as usize) {
                                    let j = choose|j: int| 0 <= j < scc0.len() && scc0[j] == x as usize;
                                    assert(scc@[j] == x as usize);
                                }
                            }
                        }
                    }
                    assert(stack@ =~= st1.subrange(0, top));
                }
                if w == v {
                    proof {
                        if top != p0 {
                            assert(st1[top] == st1[p0]);
                        }
                    }
                    break;
                }
            },
            None => {
                break;
            },
        }
    }
    proof {
        lemma_emit(adj_list@, *index as int, st1, indices@, lowlinks@, ons1, on_stack@, sccs@, scc, p0, v);
        assert forall|i: int| 0 <= i < st1.len() implies indices@[#[trigger] st1[i] as int] is Some && lowlinks@[st1[i] as int] <= indices@[st1[i] as int].unwrap() by {
            assert(st1[i] < n);
        }
        lemma_emit_reach(adj_list@, st1, indices@, lowlinks@, sccs@, scc, p0, v);
        assert(scc@[st1.len() - 1 - p0] == v);
    }
    let ghost sc1 = sccs@;
    sccs.push(scc);
    proof {
        assert(prefix_of(sc1, sccs@));
        assert forall|s: int| 0 <= s < sccs@.len() implies (#[trigger] sccs@[s])@.len() > 0 by {
            if s < sc1.len() {
                assert(sccs@[s] == sc1[s]);
            }
        }
    }
}

/// Visits `v` and everything reachable from it that is not yet visited, emitting each
/// component whose root is reached. `fuel` bounds the depth of the visit; the number of
/// unvisited nodes is enough.
#[verifier::spinoff_prover]
#[verifier::rlimit(40)]
fn strongconnect(
    v: usize,
    index: &mut usize,
    stack: &mut Vec<usize>,
    indices: &mut Vec<Option<usize>>,
    lowlinks: &mut Vec<usize>,
    on_stack: &mut Vec<bool>,
    sccs: &mut Vec<Vec<usize>>,
    adj_list: &Vec<Vec<usize>>,
    fuel: usize,
)
    requires
        tarjan_inv(adj_list@, *old(index) as int, old(stack)@, old(indices)@, old(lowlinks)@, old(on_stack)@, old(sccs)@),
        v < adj_list@.len(),
        old(indices)@[v as int] is None,
        fuel >= adj_list@.len() - *old(index),
        forall|s: int| 0 <= s < old(sccs)@.len() ==> (#[trigger] old(sccs)@[s])@.len() > 0,
        reach_inv(adj_list@, old(stack)@, old(indices)@, old(lowlinks)@, old(sccs)@),
        forall|i: int| 0 <= i < old(stack)@.len() ==> adj_reach(adj_list@, #[trigger] old(stack)@[i], v),
    ensures
        tarjan_inv(adj_list@, *final(index) as int, final(stack)@, final(indices)@, final(lowlinks)@, final(on_stack)@, final(sccs)@),
        reach_inv(adj_list@, final(stack)@, final(indices)@, final(lowlinks)@, final(sccs)@),
        forall|i: int| old(stack)@.len() <= i < final(stack)@.len() ==> reaches_below(adj_list@, #[trigger] final(stack)@[i], old(stack)@),
        final(indices)@[v as int] == Some(*old(index)),
        *final(index) > *old(index),
        forall|y: int| 0 <= y < adj_list@.len() && (#[trigger] old(indices)@[y]) is Some ==> final(indices)@[y] == old(indices)@[y]
            && final(lowlinks)@[y] == old(lowlinks)@[y],
        prefix_of(old(stack)@, final(stack)@),
        prefix_of(old(sccs)@, final(sccs)@),
        forall|s: int| 0 <= s < final(sccs)@.len() ==> (#[trigger] final(sccs)@[s])@.len() > 0,
        final(on_stack)@[v as int] ==> final(stack)@.len() > old(stack)@.len() && final(stack)@[old(stack)@.len() as int] == v
            && final(lowlinks)@[v as int] < *old(index),
        final(on_stack)@[v as int] ==> forall|i: int| old(stack)@.len() <= i < final(stack)@.len() ==> settled(
            adj_list@,
            final(indices)@,
            final(lowlinks)@,
            final(on_stack)@,
            final(sccs)@,
            #[trigger] final(stack)@[i],
        ) && final(lowlinks)@[v as int] <= final(lowlinks)@[final(stack)@[i] as int],
        !final(on_stack)@[v as int] ==> final(stack)@ == old(stack)@ && final(lowlinks)@[v as int] == *old(index),
    decreases fuel,
{
    let n = adj_list.len();
    let ghost cnt0 = *index as int;
    let ghost p0 = stack@.len() as int;
    proof {
        lemma_visited_bound(indices@, v as int);
    }
    open_node(v, index, stack, indices, lowlinks, on_stack, sccs, adj_list);
    proof {
        assert(prefix_of(old(stack)@, stack@));
        assert forall|y: int| 0 <= y < n && (#[trigger] old(indices)@[y]) is Some implies indices@[y] == old(indices)@[y]
            && lowlinks@[y] == old(lowlinks)@[y] by {
            assert(y != v);
        }
    }
    let succ = &adj_list[v];
    let mut e: usize = 0;
    while e < succ.len()
        invariant
            n == adj_list@.len(),
            v < n,
            succ@ == adj_list@[v as int]@,
            e <= succ@.len(),
            tarjan_inv(adj_list@, *index as int, stack@, indices@, lowlinks@, on_stack@, sccs@),
            p0 == old(stack)@.len(),
            prefix_of(old(stack)@, stack@),
            stack@.len() > p0,
            stack@[p0] == v,
            indices@[v as int] == Some(cnt0 as usize),
            old(indices)@[v as int] is None,
            cnt0 == *old(index),
            *index > cnt0,
            forall|y: int| 0 <= y < n && (#[trigger] old(indices)@[y]) is Some ==> indices@[y] == old(indices)@[y]
                && lowlinks@[y] == old(lowlinks)@[y],
            prefix_of(old(sccs)@, sccs@),
            forall|s: int| 0 <= s < sccs@.len() ==> (#[trigger] sccs@[s])@.len() > 0,
            forall|i: int| p0 < i < stack@.len() ==> settled(adj_list@, indices@, lowlinks@, on_stack@, sccs@, #[trigger] stack@[i])
                && lowlinks@[v as int] <= lowlinks@[stack@[i] as int],
            settled_upto(adj_list@, indices@, lowlinks@, on_stack@, sccs@, v, e as int),
            fuel >= n - cnt0,
            fuel > 0,
            reach_inv(adj_list@, stack@, indices@, lowlinks@, sccs@),
            forall|i: int| p0 < i < stack@.len() ==> adj_reach(adj_list@, #[trigger] stack@[i], v),
        decreases succ@.len() - e,
    {
        let w = succ[e];
        assert(adj_list@[v as int]@[e as int] < n);
        let ghost st_a = stack@;
        let ghost ind_a = indices@;
        let ghost low_a = lowlinks@;
        let ghost ons_a = on_stack@;
        let ghost sc_a = sccs@;
        let ghost cnt_a = *index as int;
        match indices[w] {
            None => {
                proof {
                    assert(adj_list@[v as int]@[e as int] == w);
                    assert(adj_list@[v as int]@.contains(w));
                    lemma_stack_reaches(adj_list@, stack@, indices@, lowlinks@, sccs@, p0, v);
                    lemma_reach_child(adj_list@, stack@, v, w);
                }
                strongconnect(w, index, stack, indices, lowlinks, on_stack, sccs, adj_list, fuel - 1);
                proof {
                    lemma_above_reach(adj_list@, st_a, stack@, p0, v);
                    lemma_after_child(adj_list@, cnt_a, st_a, ind_a, low_a, ons_a, sc_a, *index as int, stack@, indices@, lowlinks@, on_stack@, sccs@, v, e as int, p0);
                    lemma_prefix_trans(old(stack)@, st_a, stack@);
                    lemma_prefix_trans(old(sccs)@, sc_a, sccs@);
                    assert forall|y: int| 0 <= y < n && (#[trigger] old(indices)@[y]) is Some implies indices@[y] == old(indices)@[y]
                        && lowlinks@[y] == old(lowlinks)@[y] by {
                        assert(ind_a[y] is Some);
                    }
                }
                let ghost st_b = stack@;
                let ghost low_b = lowlinks@;
                let ghost sc_b = sccs@;
                proof {
                    if on_stack@[w as int] {
                        assert(st_b.contains(w));
                    }
                }
                if lowlinks[w] < lowlinks[v] {
                    let low = lowlinks[w];
                    lowlinks.set(v, low);
                    proof {
                        if on_stack@[w as int] {
                            let iw = choose|iw: int| 0 <= iw < st_b.len() && st_b[iw] == w;
                            let jw = lemma_child_low(adj_list@, st_b, indices@, low_b, sc_b, v, w, iw);
                            assert forall|i: int| 0 <= i < st_b.len() implies (#[trigger] st_b[i] as int) < low_b.len() by {}
                            lemma_low_lowered(adj_list@, st_b, indices@, low_b, sc_b, v, jw, low_b[w as int]);
                            assert(lowlinks@ == low_b.update(v as int, low_b[w as int]));
                        } else {
                            assert(low_b[v as int] <= indices@[v as int].unwrap());
                        }
                    }
                }
                proof {
                    assert(lowlinks@ =~= low_b.update(v as int, lowlinks@[v as int]));
                    if on_stack@[w as int] {
                        assert forall|i: int| p0 < i < st_b.len() implies settled(adj_list@, indices@, low_b, on_stack@, sccs@, #[trigger] st_b[i])
                            && lowlinks@[v as int] <= low_b[st_b[i] as int] by {
                            if i >= st_a.len() {
                                assert(low_b[w as int] <= low_b[st_b[i] as int]);
                            }
                        }
                        assert(low_b[w as int] <= indices@[w as int].unwrap());
                        assert(st_b.contains(w));
                        let iw = choose|iw: int| 0 <= iw < st_b.len() && st_b[iw] == w;
                        assert(low_b[st_b[iw] as int] >= indices@[st_b[0] as int].unwrap());
                    } else {
                        assert(st_b == st_a);
                        assert(is_done(sccs@, w));
                    }
                    assert(low_b[v as int] >= indices@[st_b[0] as int].unwrap());
                    lemma_lower_low(adj_list@, *index as int, st_b, indices@, low_b, lowlinks@, on_stack@, sccs@, v, e as int, p0);
                }
            },
            Some(w_index) => {
                if on_stack[w] && w_index < lowlinks[v] {
                    lowlinks.set(v, w_index);
                    proof {
                        assert(adj_list@[v as int]@[e as int] == w);
                        assert(adj_list@[v as int]@.contains(w));
                        assert(st_a.contains(w));
                        let iw = choose|iw: int| 0 <= iw < st_a.len() && st_a[iw] == w;
                        lemma_reach_refl(adj_list@, v);
                        lemma_reach_edge(adj_list@, v, v, w);
                        assert forall|i: int| 0 <= i < st_a.len() implies (#[trigger] st_a[i] as int) < low_a.len() by {}
                        lemma_low_lowered(adj_list@, st_a, indices@, low_a, sc_a, v, iw, w_index);
                        assert(lowlinks@ == low_a.update(v as int, w_index));
                    }
                }
                proof {
                    assert(lowlinks@ =~= low_a.update(v as int, lowlinks@[v as int]));
                    assert(low_a[v as int] >= indices@[st_a[0] as int].unwrap());
                    if on_stack@[w as int] {
                        assert(st_a.contains(w));
                        let iw = choose|iw: int| 0 <= iw < st_a.len() && st_a[iw] == w;
                        if iw > 0 {
                            assert(indices@[st_a[0] as int].unwrap() < indices@[st_a[iw] as int].unwrap());
                        }
                    } else {
                        assert(is_done(sccs@, w));
                    }
                    lemma_lower_low(adj_list@, *index as int, st_a, indices@, low_a, lowlinks@, on_stack@, sccs@, v, e as int, p0);
                }
            },
        }
        e = e + 1;
    }
    let is_root = match indices[v] {
        Some(iv) => iv == lowlinks[v],
        None => false,
    };
    if is_root {
        proof {
            assert forall|i: int| p0 <= i < stack@.len() implies adj_reach(adj_list@, #[trigger] stack@[i], v) by {
                if i == p0 {
                    lemma_reach_refl(adj_list@, v);
                }
            }
        }
        emit_component(v, Ghost(p0), index, stack, indices, lowlinks, on_stack, sccs, adj_list);
        proof {
            assert(stack@ =~= old(stack)@);
        }
    } else {
        proof {
            assert(lowlinks@[v as int] <= indices@[v as int].unwrap());
            assert forall|i: int| 0 <= i < stack@.len() implies indices@[#[trigger] stack@[i] as int] is Some by {}
            lemma_not_root(adj_list@, stack@, indices@, lowlinks@, sccs@, p0, v);
            assert(stack@.subrange(0, p0) =~= old(stack)@);
        }
    }
}

/// Whether a declaration uses its own name.
fn has_self_dependency(decl: &Declaration) -> (r: bool)
    ensures
        r == decl.dependencies@.contains(decl.name),
{
    let mut i: usize = 0;
    while i < decl.dependencies.len()
        invariant
            i <= decl.dependencies@.len(),
            forall|j: int| 0 <= j < i ==> decl.dependencies@[j] != decl.name,
        decreases decl.dependencies@.len() - i,
    {
        if decl.dependencies[i] == decl.name {
            assert(decl.dependencies@[i as int] == decl.name);
            return true;
        }
        i = i + 1;
    }
    false
}

/// `name` is an implemented function or a constructor of the program in `pools`.
pub open spec fn is_program_name(pools: &Pools, name: InternedString) -> bool {
    (exists|f: int| 0 <= f < pools.function_implementations@.len() && pools.function_implementations@[f].0 == name)
    || (exists|c: int| 0 <= c < pools.constructors@.len() && pools.constructors@[c].0 == name)
}

/// Implemented function `i` of `pools` has its name in group `g`, and every name of the
/// program that its body uses is in `g` or an earlier group.
pub open spec fn function_placed_in(pools: &Pools, groups: Seq<DefinitionGroup>, i: int, g: int) -> bool {
    &&& 0 <= g < groups.len()
    &&& groups[g].definitions@.contains(pools.function_implementations@[i].0)
    &&& forall|name: InternedString|
        #[trigger] expr_uses(pools, pools.function_implementations@[i].1.0 as int, name) && is_program_name(pools, name)
            ==> exists|h: int| 0 <= h <= g && (#[trigger] groups[h]).definitions@.contains(name)
}

/// Some group holds `name`.
pub open spec fn in_some_group(groups: Seq<DefinitionGroup>, name: InternedString) -> bool {
    exists|g: int| 0 <= g < groups.len() && (#[trigger] groups[g]).definitions@.contains(name)
}

/// Implemented function `i` of `pools` is placed in some group.
pub open spec fn function_is_placed(pools: &Pools, groups: Seq<DefinitionGroup>, i: int) -> bool {
    exists|g: int| #[trigger] function_placed_in(pools, groups, i, g)
}

/// No two implemented functions and constructors of the program share a name.
pub open spec fn program_names_distinct(pools: &Pools) -> bool {
    &&& forall|i: int, j: int| 0 <= i < j < pools.function_implementations@.len()
        ==> (#[trigger] pools.function_implementations@[i]).0 != (#[trigger] pools.function_implementations@[j]).0
    &&& forall|i: int, j: int| 0 <= i < j < pools.constructors@.len()
        ==> (#[trigger] pools.constructors@[i]).0 != (#[trigger] pools.constructors@[j]).0
    &&& forall|i: int, j: int| 0 <= i < pools.function_implementations@.len() && 0 <= j < pools.constructors@.len()
        ==> (#[trigger] pools.function_implementations@[i]).0 != (#[trigger] pools.constructors@[j]).0
}

/// The definition groups of the program held in `pools`: its implemented functions and
/// its constructors. Each function comes no earlier than the names it uses.
pub fn analyze_pool_dependencies(pools: &Pools) -> (r: Vec<DefinitionGroup>)
    requires
        pools.wf(),
    ensures
        forall|g: int, k: int| 0 <= g < r@.len() && 0 <= k < r@[g].definitions@.len() ==>
            is_program_name(pools, #[trigger] r@[g].definitions@[k]),
        forall|i: int| 0 <= i < pools.function_implementations@.len() ==> #[trigger] function_is_placed(pools, r@, i),
        forall|c: int| 0 <= c < pools.constructors@.len() ==> #[trigger] in_some_group(r@, pools.constructors@[c].0),
        program_names_distinct(pools) ==> names_once(r@),
        program_names_distinct(pools) ==> forall|c: int| 0 <= c < pools.constructors@.len()
            ==> #[trigger] alone_in_group(r@, pools.constructors@[c].0),
{
    let mut declarations: Vec<Declaration> = Vec::new();
    let mut i: usize = 0;
    while i < pools.function_implementations.len()
        invariant
            i <= pools.function_implementations@.len(),
            pools.wf(),
            declarations@.len() == i,
            forall|d: int| 0 <= d < declarations@.len() ==> (#[trigger] declarations@[d]).name == pools.function_implementations@[d].0
                && forall|name: InternedString| #[trigger] declarations@[d].dependencies@.contains(name)
                    <==> expr_uses(pools, pools.function_implementations@[d].1.0 as int, name),
        decreases pools.function_implementations@.len() - i,
    {
        let name = pools.function_implementations[i].0;
        let expr_id = pools.function_implementations[i].1;
        proof {
            assert(pools.valid_expr(expr_id));
        }
        let dependencies = extract_dependencies(expr_id, pools);
        let ghost d0 = declarations@;
        declarations.push(Declaration { name, kind: DeclarationKind::Function(expr_id), dependencies });
        proof {
            assert forall|d: int| 0 <= d < declarations@.len() implies (#[trigger] declarations@[d]).name == pools.function_implementations@[d].0
                && forall|name: InternedString| #[trigger] declarations@[d].dependencies@.contains(name)
                    <==> expr_uses(pools, pools.function_implementations@[d].1.0 as int, name) by {
                if d < d0.len() {
                    assert(declarations@[d] == d0[d]);
                }
            }
        }
        i = i + 1;
    }
    let nf = declarations.len();
    let mut c: usize = 0;
    while c < pools.constructors.len()
        invariant
            c <= pools.constructors@.len(),
            nf == pools.function_implementations@.len(),
            declarations@.len() == nf + c,
            forall|d: int| 0 <= d < nf ==> (#[trigger] declarations@[d]).name == pools.function_implementations@[d].0
                && forall|name: InternedString| #[trigger] declarations@[d].dependencies@.contains(name)
                    <==> expr_uses(pools, pools.function_implementations@[d].1.0 as int, name),
            forall|d: int| nf <= d < declarations@.len() ==> (#[trigger] declarations@[d]).name == pools.constructors@[d - nf].0
                && declarations@[d].dependencies@.len() == 0,
        decreases pools.constructors@.len() - c,
    {
        let name = pools.constructors[c].0;
        let ghost d0 = declarations@;
        declarations.push(Declaration { name, kind: DeclarationKind::DataType, dependencies: Vec::new() });
        proof {
            assert forall|d: int| 0 <= d < nf implies (#[trigger] declarations@[d]).name == pools.function_implementations@[d].0
                && forall|name: InternedString| #[trigger] declarations@[d].dependencies@.contains(name)
                    <==> expr_uses(pools, pools.function_implementations@[d].1.0 as int, name) by {
                assert(declarations@[d] == d0[d]);
            }
            assert forall|d: int| nf <= d < declarations@.len() implies (#[trigger] declarations@[d]).name == pools.constructors@[d - nf].0
                && declarations@[d].dependencies@.len() == 0 by {
                if d < d0.len() {
                    assert(declarations@[d] == d0[d]);
                }
            }
        }
        c = c + 1;
    }
    let ghost decls = declarations@;
    proof {
        if program_names_distinct(pools) {
            assert forall|a: int, b: int| 0 <= a < b < decls.len() implies (#[trigger] decls[a]).name != (#[trigger] decls[b]).name by {
                if b < nf {
                    assert(pools.function_implementations@[a].0 != pools.function_implementations@[b].0);
                } else if a < nf {
                    assert(pools.function_implementations@[a].0 != pools.constructors@[b - nf].0);
                } else {
                    assert(pools.constructors@[a - nf].0 != pools.constructors@[b - nf].0);
                }
            }
        }
    }
    let r = topological_sort_declarations(declarations);
    proof {
        assert forall|g: int, k: int| 0 <= g < r@.len() && 0 <= k < r@[g].definitions@.len() implies
            is_program_name(pools, #[trigger] r@[g].definitions@[k]) by {
            assert(is_declared(decls, r@[g].definitions@[k]));
            let d = choose|d: int| 0 <= d < decls.len() && decls[d].name == r@[g].definitions@[k];
            if d < nf {
                assert(pools.function_implementations@[d].0 == r@[g].definitions@[k]);
            } else {
                assert(pools.constructors@[d - nf].0 == r@[g].definitions@[k]);
            }
        }
        assert forall|i: int| 0 <= i < pools.function_implementations@.len() implies #[trigger] function_is_placed(pools, r@, i) by {
            assert(is_placed(r@, decls, i));
            let g = choose|g: int| #[trigger] placed_in(r@, decls, i, g);
            assert forall|name: InternedString|
                #[trigger] expr_uses(pools, pools.function_implementations@[i].1.0 as int, name) && is_program_name(pools, name)
                    implies exists|h: int| 0 <= h <= g && (#[trigger] r@[h]).definitions@.contains(name) by {
                assert(decls[i].dependencies@.contains(name));
                let k = choose|k: int| 0 <= k < decls[i].dependencies@.len() && decls[i].dependencies@[k] == name;
                if exists|f: int| 0 <= f < pools.function_implementations@.len() && pools.function_implementations@[f].0 == name {
                    let f = choose|f: int| 0 <= f < pools.function_implementations@.len() && pools.function_implementations@[f].0 == name;
                    assert(decls[f].name == name);
                } else {
                    let cc = choose|cc: int| 0 <= cc < pools.constructors@.len() && pools.constructors@[cc].0 == name;
                    assert(decls[nf + cc].name == name);
                }
                assert(is_declared(decls, decls[i].dependencies@[k]));
            }
            assert(function_placed_in(pools, r@, i, g));
        }
        assert forall|c: int| 0 <= c < pools.constructors@.len() implies #[trigger] in_some_group(r@, pools.constructors@[c].0) by {
            assert(is_placed(r@, decls, nf + c));
            let g = choose|g: int| #[trigger] placed_in(r@, decls, nf + c, g);
            assert(decls[nf + c].name == pools.constructors@[c].0);
        }
        if program_names_distinct(pools) {
            assert forall|c: int| 0 <= c < pools.constructors@.len() implies #[trigger] alone_in_group(r@, pools.constructors@[c].0) by {
                lemma_constructor_alone(decls, r@, nf + c);
                assert(decls[nf + c].name == pools.constructors@[c].0);
            }
        }
    }
    r
}

/// Some group holds `name` alone and is not recursive.
pub open spec fn alone_in_group(groups: Seq<DefinitionGroup>, name: InternedString) -> bool {
    exists|g: int| 0 <= g < groups.len() && (#[trigger] groups[g]).definitions@ == seq![name] && !groups[g].is_recursive
}

/// A declaration that uses nothing is alone in its group, which is not recursive.
proof fn lemma_constructor_alone(decls: Seq<Declaration>, groups: Seq<DefinitionGroup>, dc: int)
    requires
        0 <= dc < decls.len(),
        decls[dc].dependencies@.len() == 0,
        distinct_decl_names(decls),
        names_declared(groups, decls),
        dependencies_first(groups, decls),
        names_once(groups),
        groups_connected(groups, decls),
    ensures
        alone_in_group(groups, decls[dc].name),
{
    assert(is_placed(groups, decls, dc));
    let g = choose|g: int| #[trigger] placed_in(groups, decls, dc, g);
    let defs = groups[g].definitions@;
    let name = decls[dc].name;
    assert(defs.contains(name));
    let k0 = choose|k: int| 0 <= k < defs.len() && defs[k] == name;
    assert forall|k: int| 0 <= k < defs.len() implies defs[k] == name by {
        assert(is_declared(decls, groups[g].definitions@[k]));
        let y = choose|y: int| 0 <= y < decls.len() && decls[y].name == defs[k];
        assert(same_group(groups, decls[dc].name, decls[y].name));
        let (s1, s2) = choose|s1: nat, s2: nat| #[trigger] reaches(decls, dc, y, s1) && #[trigger] reaches(decls, y, dc, s2);
        if dc != y {
            assert(exists|z: int| #[trigger] uses_decl(decls, dc, z) && reaches(decls, z, y, (s1 - 1) as nat));
            let z = choose|z: int| #[trigger] uses_decl(decls, dc, z) && reaches(decls, z, y, (s1 - 1) as nat);
            assert(decls[dc].dependencies@.contains(decls[z].name));
        }
    }
    if defs.len() > 1 {
        let k1 = if k0 == 0 { 1int } else { 0int };
        assert(groups[g].definitions@[k0] == groups[g].definitions@[k1]);
    }
    assert(defs =~= seq![name]);
    assert(!decls[dc].dependencies@.contains(decls[dc].name));
}

/// Expression `e` refers to the global `name` or applies the constructor `name`,
/// itself or in one of its subexpressions.
pub open spec fn expr_uses(p: &Pools, e: int, name: InternedString) -> bool
    decreases e, 1int, 0int,
{
    if e < 0 || e >= p.exprs@.len() {
        false
    } else {
        match p.exprs@[e] {
            Expr::GlobalVar(_, n, _) => n == name,
            Expr::Call(f, a, _) => (f.0 < e && expr_uses(p, f.0 as int, name)) || (a.0 < e && expr_uses(p, a.0 as int, name)),
            Expr::Lambda(b, _, _) => b.0 < e && expr_uses(p, b.0 as int, name),
            Expr::Let(v, b, _, _) => (v.0 < e && expr_uses(p, v.0 as int, name)) || (b.0 < e && expr_uses(p, b.0 as int, name)),
            Expr::Construct(n, a, _) => n == name || (a.0 < e && expr_uses(p, a.0 as int, name)),
            Expr::Match(x, arms, _) => (x.0 < e && expr_uses(p, x.0 as int, name)) || arms_use(
                p,
                e,
                arms.start_id.0 as int,
                arms.length as int,
                0,
                name,
            ),
            Expr::Record(start, len, _) => fields_use(p, e, start.0 as int, len as int, 0, name),
            Expr::Project(r, _, _) => r.0 < e && expr_uses(p, r.0 as int, name),
            Expr::Extend(r, start, len, _) => (r.0 < e && expr_uses(p, r.0 as int, name)) || fields_use(
                p,
                e,
                start.0 as int,
                len as int,
                0,
                name,
            ),
            Expr::Ffi(_, _, Some(a), _) => a.0 < e && expr_uses(p, a.0 as int, name),
            _ => false,
        }
    }
}

/// One of the bodies of the match arms `i..len` of the run at `start` uses `name`.
pub open spec fn arms_use(p: &Pools, parent: int, start: int, len: int, i: int, name: InternedString) -> bool
    decreases parent, 0int, len - i,
{
    if i >= len || i < 0 || start < 0 || start + len > p.patterns@.len() {
        false
    } else {
        let b = p.patterns@[start + i].body.0 as int;
        (b < parent && expr_uses(p, b, name)) || arms_use(p, parent, start, len, i + 1, name)
    }
}

/// One of the record fields `i..len` of the run at `start` uses `name`.
pub open spec fn fields_use(p: &Pools, parent: int, start: int, len: int, i: int, name: InternedString) -> bool
    decreases parent, 0int, len - i,
{
    if i >= len || i < 0 || start < 0 || start + len > p.record_fields@.len() {
        false
    } else {
        let f = p.record_fields@[start + i].expr.0 as int;
        (f < parent && expr_uses(p, f, name)) || fields_use(p, parent, start, len, i + 1, name)
    }
}

/// `c` is an immediate subexpression of node `e`: an operand of a call, the body of a lambda,
/// the bound value or the body of a let, the argument of a constructor, the scrutinee or an arm
/// body of a match, a field expression of a record literal or extension, the record of a
/// projection or extension, or the argument of a foreign call.
pub open spec fn direct_child(p: &Pools, e: int, c: int) -> bool {
    &&& 0 <= e < p.exprs@.len()
    &&& match p.exprs@[e] {
        Expr::Call(f, a, _) => c == f.0 as int || c == a.0 as int,
        Expr::Lambda(b, _, _) => c == b.0 as int,
        Expr::Let(v, b, _, _) => c == v.0 as int || c == b.0 as int,
        Expr::Construct(_, a, _) => c == a.0 as int,
        Expr::Match(x, arms, _) => c == x.0 as int || exists|k: int|
            0 <= k < arms.length && c == #[trigger] p.patterns@[arms.start_id.0 + k].body.0 as int,
        Expr::Record(s, l, _) => exists|k: int|
            0 <= k < l && c == #[trigger] p.record_fields@[s.0 + k].expr.0 as int,
        Expr::Project(r, _, _) => c == r.0 as int,
        Expr::Extend(r, s, l, _) => c == r.0 as int || exists|k: int|
            0 <= k < l && c == #[trigger] p.record_fields@[s.0 + k].expr.0 as int,
        Expr::Ffi(_, _, Some(a), _) => c == a.0 as int,
        _ => false,
    }
}

/// Node `e` itself names `name`: a reference to the global `name` or the constructor `name`.
pub open spec fn names_at(p: &Pools, e: int, name: InternedString) -> bool {
    &&& 0 <= e < p.exprs@.len()
    &&& match p.exprs@[e] {
        Expr::GlobalVar(_, n, _) => n == name,
        Expr::Construct(n, _, _) => n == name,
        _ => false,
    }
}

proof fn lemma_arms_use_witness(p: &Pools, parent: int, start: int, len: int, i: int, name: InternedString)
    requires
        0 <= i <= len,
        0 <= start,
        start + len <= p.patterns@.len(),
        forall|k: int| start <= k < start + len ==> (#[trigger] p.patterns@[k]).body.0 < parent,
    ensures
        arms_use(p, parent, start, len, i, name) <==> exists|k: int|
            i <= k < len && expr_uses(p, #[trigger] p.patterns@[start + k].body.0 as int, name),
    decreases len - i,
{
    if i < len {
        lemma_arms_use_witness(p, parent, start, len, i + 1, name);
        if exists|k: int| i <= k < len && expr_uses(p, #[trigger] p.patterns@[start + k].body.0 as int, name) {
            let k = choose|k: int| i <= k < len && expr_uses(p, #[trigger] p.patterns@[start + k].body.0 as int, name);
            if k > i {
                assert(i + 1 <= k < len && expr_uses(p, p.patterns@[start + k].body.0 as int, name));
            }
        }
        if arms_use(p, parent, start, len, i, name) && !arms_use(p, parent, start, len, i + 1, name) {
            assert(expr_uses(p, p.patterns@[start + i].body.0 as int, name));
        }
    }
}

proof fn lemma_fields_use_witness(p: &Pools, parent: int, start: int, len: int, i: int, name: InternedString)
    requires
        0 <= i <= len,
        0 <= start,
        start + len <= p.record_fields@.len(),
        forall|k: int| start <= k < start + len ==> (#[trigger] p.record_fields@[k]).expr.0 < parent,
    ensures
        fields_use(p, parent, start, len, i, name) <==> exists|k: int|
            i <= k < len && expr_uses(p, #[trigger] p.record_fields@[start + k].expr.0 as int, name),
    decreases len - i,
{
    if i < len {
        lemma_fields_use_witness(p, parent, start, len, i + 1, name);
        if exists|k: int| i <= k < len && expr_uses(p, #[trigger] p.record_fields@[start + k].expr.0 as int, name) {
            let k = choose|k: int| i <= k < len && expr_uses(p, #[trigger] p.record_fields@[start + k].expr.0 as int, name);
            if k > i {
                assert(i + 1 <= k < len && expr_uses(p, p.record_fields@[start + k].expr.0 as int, name));
            }
        }
        if fields_use(p, parent, start, len, i, name) && !fields_use(p, parent, start, len, i + 1, name) {
            assert(expr_uses(p, p.record_fields@[start + i].expr.0 as int, name));
        }
    }
}

/// An expression uses a global name exactly when the node itself names it (a reference to the
/// global or the constructor of that name) or one of its immediate subexpressions uses it; a
/// let's bound value counts as much as its body, each match arm and each record field as much as
/// the others. Since every subexpression lies below its parent, this fixes the relation: a name
/// is used exactly when some node reachable through subexpressions names it.
pub proof fn lemma_uses_characterized(p: &Pools, e: int, name: InternedString)
    requires
        p.wf(),
        0 <= e < p.exprs@.len(),
    ensures
        expr_uses(p, e, name) <==> (names_at(p, e, name) || exists|c: int|
            direct_child(p, e, c) && #[trigger] expr_uses(p, c, name)),
{
    assert(p.expr_node_ok(p.exprs@[e], e));
    match p.exprs@[e] {
        Expr::Match(x, arms, _) => {
            let s = arms.start_id.0 as int;
            let l = arms.length as int;
            if expr_uses(p, x.0 as int, name) { assert(direct_child(p, e, x.0 as int)); }
            lemma_arms_use_witness(p, e, s, l, 0, name);
            if arms_use(p, e, s, l, 0, name) {
                let k = choose|k: int| 0 <= k < l && expr_uses(p, #[trigger] p.patterns@[s + k].body.0 as int, name);
                assert(direct_child(p, e, p.patterns@[s + k].body.0 as int));
            }
            if exists|c: int| direct_child(p, e, c) && #[trigger] expr_uses(p, c, name) {
                let c = choose|c: int| direct_child(p, e, c) && #[trigger] expr_uses(p, c, name);
                if c != x.0 as int {
                    let k = choose|k: int| 0 <= k < l && c == #[trigger] p.patterns@[s + k].body.0 as int;
                    assert(p.patterns@[s + k].body.0 < e);
                }
            }
        },
        Expr::Record(st, l, _) => {
            let s = st.0 as int;
            lemma_fields_use_witness(p, e, s, l as int, 0, name);
            if fields_use(p, e, s, l as int, 0, name) {
                let k = choose|k: int| 0 <= k < l && expr_uses(p, #[trigger] p.record_fields@[s + k].expr.0 as int, name);
                assert(direct_child(p, e, p.record_fields@[s + k].expr.0 as int));
            }
            if exists|c: int| direct_child(p, e, c) && #[trigger] expr_uses(p, c, name) {
                let c = choose|c: int| direct_child(p, e, c) && #[trigger] expr_uses(p, c, name);
                let k = choose|k: int| 0 <= k < l && c == #[trigger] p.record_fields@[s + k].expr.0 as int;
                assert(p.record_fields@[s + k].expr.0 < e);
            }
        },
        Expr::Extend(r, st, l, _) => {
            let s = st.0 as int;
            if expr_uses(p, r.0 as int, name) { assert(direct_child(p, e, r.0 as int)); }
            lemma_fields_use_witness(p, e, s, l as int, 0, name);
            if fields_use(p, e, s, l as int, 0, name) {
                let k = choose|k: int| 0 <= k < l && expr_uses(p, #[trigger] p.record_fields@[s + k].expr.0 as int, name);
                assert(direct_child(p, e, p.record_fields@[s + k].expr.0 as int));
            }
            if exists|c: int| direct_child(p, e, c) && #[trigger] expr_uses(p, c, name) {
                let c = choose|c: int| direct_child(p, e, c) && #[trigger] expr_uses(p, c, name);
                if c != r.0 as int {
                    let k = choose|k: int| 0 <= k < l && c == #[trigger] p.record_fields@[s + k].expr.0 as int;
                    assert(p.record_fields@[s + k].expr.0 < e);
                }
            }
        },
        Expr::Call(f, a, _) => {
            if expr_uses(p, f.0 as int, name) { assert(direct_child(p, e, f.0 as int)); }
            if expr_uses(p, a.0 as int, name) { assert(direct_child(p, e, a.0 as int)); }
        },
        Expr::Let(v, b, _, _) => {
            if expr_uses(p, v.0 as int, name) { assert(direct_child(p, e, v.0 as int)); }
            if expr_uses(p, b.0 as int, name) { assert(direct_child(p, e, b.0 as int)); }
        },
        Expr::Lambda(b, _, _) => {
            if expr_uses(p, b.0 as int, name) { assert(direct_child(p, e, b.0 as int)); }
        },
        Expr::Construct(_, a, _) => {
            if expr_uses(p, a.0 as int, name) { assert(direct_child(p, e, a.0 as int)); }
        },
        Expr::Project(r, _, _) => {
            if expr_uses(p, r.0 as int, name) { assert(direct_child(p, e, r.0 as int)); }
        },
        Expr::Ffi(_, _, Some(a), _) => {
            if expr_uses(p, a.0 as int, name) { assert(direct_child(p, e, a.0 as int)); }
        },
        _ => {},
    }
}

/// No name occurs twice.
pub open spec fn distinct_names(s: Seq<InternedString>) -> bool {
    forall|i: int, j: int| 0 <= i < j < s.len() ==> s[i] != s[j]
}

/// The global names and constructors that an expression uses, each once.
pub fn extract_dependencies(expr_id: ExprId, pools: &Pools) -> (r: Vec<InternedString>)
    requires
        pools.wf(),
        pools.valid_expr(expr_id),
    ensures
        distinct_names(r@),
        forall|name: InternedString| #[trigger] r@.contains(name) <==> expr_uses(pools, expr_id.0 as int, name),
{
    let mut dependencies: Vec<InternedString> = Vec::new();
    extract_dependencies_recursive(expr_id, pools, &mut dependencies);
    dependencies
}

fn insert_name(names: &mut Vec<InternedString>, name: InternedString)
    ensures
        forall|x: InternedString| #[trigger] final(names)@.contains(x) <==> (old(names)@.contains(x) || x == name),
        distinct_names(old(names)@) ==> distinct_names(final(names)@),
{
    let mut i: usize = 0;
    while i < names.len()
        invariant
            i <= names@.len(),
            names@ == old(names)@,
            forall|j: int| 0 <= j < i ==> names@[j] != name,
        decreases names@.len() - i,
    {
        if names[i] == name {
            assert(names@[i as int] == name);
            return ;
        }
        i = i + 1;
    }
    let ghost o = names@;
    names.push(name);
    proof {
        assert forall|x: InternedString| #[trigger] names@.contains(x) <==> (o.contains(x) || x == name) by {
            if names@.contains(x) {
                let k = choose|k: int| 0 <= k < names@.len() && names@[k] == x;
                if k < o.len() {
                    assert(o[k] == x);
                }
            }
            if o.contains(x) {
                let k = choose|k: int| 0 <= k < o.len() && o[k] == x;
                assert(names@[k] == x);
            }
            if x == name {
                assert(names@[names@.len() - 1] == name);
            }
        }
    }
}

/// `cur` holds the names of `before` and those that the arms `0..i` use, exactly when
/// `before` with all the arms does.
pub open spec fn gathered_arms(p: &Pools, cur: Seq<InternedString>, before: Seq<InternedString>, parent: int, start: int, len: int, i: int) -> bool {
    forall|name: InternedString|
        #![trigger cur.contains(name)]
        #![trigger arms_use(p, parent, start, len, i, name)]
        cur.contains(name) || arms_use(p, parent, start, len, i, name) <==> before.contains(name) || arms_use(p, parent, start, len, 0, name)
}

/// The same as [`gathered_arms`] for the fields of a record.
pub open spec fn gathered_fields(p: &Pools, cur: Seq<InternedString>, before: Seq<InternedString>, parent: int, start: int, len: int, i: int) -> bool {
    forall|name: InternedString|
        #![trigger cur.contains(name)]
        #![trigger fields_use(p, parent, start, len, i, name)]
        cur.contains(name) || fields_use(p, parent, start, len, i, name) <==> before.contains(name) || fields_use(p, parent, start, len, 0, name)
}

fn extract_dependencies_recursive(expr_id: ExprId, pools: &Pools, dependencies: &mut Vec<InternedString>)
    requires
        pools.wf(),
        pools.valid_expr(expr_id),
        distinct_names(old(dependencies)@),
    ensures
        distinct_names(final(dependencies)@),
        forall|name: InternedString| #[trigger] final(dependencies)@.contains(name) <==> (old(dependencies)@.contains(name)
            || expr_uses(pools, expr_id.0 as int, name)),
    decreases expr_id.0, 1nat,
{
    let e = pools.exprs[expr_id.0];
    proof {
        assert(pools.expr_node_ok(pools.exprs@[expr_id.0 as int], expr_id.0 as int));
    }
    let ghost d0 = dependencies@;
    match e {
        Expr::Var(_, _, _) | Expr::Int(_, _) | Expr::String(_, _) | Expr::Unit(_) => {},
        Expr::GlobalVar(_, name, _) => {
            insert_name(dependencies, name);
        },
        Expr::Call(func_id, arg_id, _) => {
            extract_dependencies_recursive(func_id, pools, dependencies);
            extract_dependencies_recursive(arg_id, pools, dependencies);
        },
        Expr::Lambda(body_id, _, _) => {
            extract_dependencies_recursive(body_id, pools, dependencies);
        },
        Expr::Let(value_id, body_id, _, _) => {
            extract_dependencies_recursive(value_id, pools, dependencies);
            extract_dependencies_recursive(body_id, pools, dependencies);
        },
        Expr::Construct(constructor_name, arg_id, _) => {
            insert_name(dependencies, constructor_name);
            extract_dependencies_recursive(arg_id, pools, dependencies);
        },
        Expr::Match(scrutinee, arms, _) => {
            extract_dependencies_recursive(scrutinee, pools, dependencies);
            let ghost d1 = dependencies@;
            let mut i: usize = 0;
            while i < arms.length
                invariant
                    i <= arms.length,
                    pools.wf(),
                    pools.valid_expr(expr_id),
                    pools.arms_below(arms, expr_id.0 as int),
                    distinct_names(dependencies@),
                    gathered_arms(pools, dependencies@, d1, expr_id.0 as int, arms.start_id.0 as int, arms.length as int, i as int),
                decreases arms.length - i,
            {
                let plen = pools.patterns.len();
                assert(arms.start_id.0 + i < plen);
                let case = pools.get_pattern_case(PatternId(arms.start_id.0 + i));
                let ghost before = dependencies@;
                extract_dependencies_recursive(case.body, pools, dependencies);
                proof {
                    lemma_gathered_arms_step(pools, before, dependencies@, d1, expr_id.0 as int, arms.start_id.0 as int, arms.length as int, i as int);
                }
                i = i + 1;
            }
            proof {
                assert forall|name: InternedString| #[trigger] dependencies@.contains(name) <==> (d0.contains(name)
                    || expr_uses(pools, expr_id.0 as int, name)) by {
                    assert(!arms_use(pools, expr_id.0 as int, arms.start_id.0 as int, arms.length as int, arms.length as int, name));
                    assert(dependencies@.contains(name) || arms_use(pools, expr_id.0 as int, arms.start_id.0 as int, arms.length as int, arms.length as int, name)
                        <==> d1.contains(name) || arms_use(pools, expr_id.0 as int, arms.start_id.0 as int, arms.length as int, 0, name));
                    assert(d1.contains(name) <==> (d0.contains(name) || expr_uses(pools, scrutinee.0 as int, name)));
                }
            }
        },
        Expr::Record(start, len, _) => {
            extract_field_dependencies(expr_id, start.0, len, pools, dependencies);
        },
        Expr::Project(record_id, _, _) => {
            extract_dependencies_recursive(record_id, pools, dependencies);
        },
        Expr::Extend(record_id, start, len, _) => {
            extract_dependencies_recursive(record_id, pools, dependencies);
            let ghost d1 = dependencies@;
            extract_field_dependencies(expr_id, start.0, len, pools, dependencies);
            proof {
                assert forall|name: InternedString| #[trigger] dependencies@.contains(name) <==> (d0.contains(name)
                    || expr_uses(pools, expr_id.0 as int, name)) by {
                    assert(d1.contains(name) <==> (d0.contains(name) || expr_uses(pools, record_id.0 as int, name)));
                }
            }
        },
        Expr::Ffi(_, _, arg_expr, _) => {
            match arg_expr {
                Some(arg_id) => {
                    extract_dependencies_recursive(arg_id, pools, dependencies);
                },
                None => {},
            }
        },
    }
}

proof fn lemma_gathered_arms_step(p: &Pools, a: Seq<InternedString>, b: Seq<InternedString>, before: Seq<InternedString>, parent: int, start: int, len: int, i: int)
    requires
        gathered_arms(p, a, before, parent, start, len, i),
        0 <= i < len,
        0 <= start,
        start + len <= p.patterns@.len(),
        p.patterns@[start + i].body.0 < parent,
        forall|name: InternedString| #[trigger] b.contains(name) <==> (a.contains(name) || expr_uses(p, p.patterns@[start + i].body.0 as int, name)),
    ensures
        gathered_arms(p, b, before, parent, start, len, i + 1),
{
    assert forall|name: InternedString|
        #![trigger b.contains(name)]
        #![trigger arms_use(p, parent, start, len, i + 1, name)]
        b.contains(name) || arms_use(p, parent, start, len, i + 1, name) <==> before.contains(name) || arms_use(p, parent, start, len, 0, name) by {
        assert(a.contains(name) || arms_use(p, parent, start, len, i, name) <==> before.contains(name) || arms_use(p, parent, start, len, 0, name));
        assert(b.contains(name) == (a.contains(name) || expr_uses(p, p.patterns@[start + i].body.0 as int, name)));
    }
}

proof fn lemma_gathered_fields_step(p: &Pools, a: Seq<InternedString>, b: Seq<InternedString>, before: Seq<InternedString>, parent: int, start: int, len: int, i: int)
    requires
        gathered_fields(p, a, before, parent, start, len, i),
        0 <= i < len,
        0 <= start,
        start + len <= p.record_fields@.len(),
        p.record_fields@[start + i].expr.0 < parent,
        forall|name: InternedString| #[trigger] b.contains(name) <==> (a.contains(name) || expr_uses(p, p.record_fields@[start + i].expr.0 as int, name)),
    ensures
        gathered_fields(p, b, before, parent, start, len, i + 1),
{
    assert forall|name: InternedString|
        #![trigger b.contains(name)]
        #![trigger fields_use(p, parent, start, len, i + 1, name)]
        b.contains(name) || fields_use(p, parent, start, len, i + 1, name) <==> before.contains(name) || fields_use(p, parent, start, len, 0, name) by {
        assert(a.contains(name) || fields_use(p, parent, start, len, i, name) <==> before.contains(name) || fields_use(p, parent, start, len, 0, name));
        assert(b.contains(name) == (a.contains(name) || expr_uses(p, p.record_fields@[start + i].expr.0 as int, name)));
    }
}

/// The dependencies of the record fields `start..start+len` of expression `expr_id`.
fn extract_field_dependencies(
    expr_id: ExprId,
    start: usize,
    len: usize,
    pools: &Pools,
    dependencies: &mut Vec<InternedString>,
)
    requires
        pools.wf(),
        pools.valid_expr(expr_id),
        pools.fields_below(start as int, len as int, expr_id.0 as int),
        distinct_names(old(dependencies)@),
    ensures
        distinct_names(final(dependencies)@),
        forall|name: InternedString| #[trigger] final(dependencies)@.contains(name) <==> (old(dependencies)@.contains(name)
            || fields_use(pools, expr_id.0 as int, start as int, len as int, 0, name)),
    decreases expr_id.0, 0nat,
{
    let ghost d0 = dependencies@;
    let fields = pools.get_record_fields(start, len);
    let mut i: usize = 0;
    while i < fields.len()
        invariant
            i <= fields@.len(),
            fields@.len() == len,
            fields@ == pools.record_fields@.subrange(start as int, start + len),
            pools.wf(),
            pools.valid_expr(expr_id),
            pools.fields_below(start as int, len as int, expr_id.0 as int),
            distinct_names(dependencies@),
            gathered_fields(pools, dependencies@, d0, expr_id.0 as int, start as int, len as int, i as int),
        decreases fields@.len() - i,
    {
        assert(fields@[i as int] == pools.record_fields@[start + i]);
        assert(pools.record_fields@[start + i].expr.0 < expr_id.0);
        let ghost before = dependencies@;
        extract_dependencies_recursive(fields[i].expr, pools, dependencies);
        proof {
            lemma_gathered_fields_step(pools, before, dependencies@, d0, expr_id.0 as int, start as int, len as int, i as int);
        }
        i = i + 1;
    }
    proof {
        assert forall|name: InternedString| #[trigger] dependencies@.contains(name) <==> (d0.contains(name)
            || fields_use(pools, expr_id.0 as int, start as int, len as int, 0, name)) by {
            assert(!fields_use(pools, expr_id.0 as int, start as int, len as int, len as int, name));
            assert(dependencies@.contains(name) || fields_use(pools, expr_id.0 as int, start as int, len as int, len as int, name)
                <==> d0.contains(name) || fields_use(pools, expr_id.0 as int, start as int, len as int, 0, name));
        }
    }
}

} // verus!
