use vstd::prelude::*;

use crate::analysis::DefinitionRow;
use crate::intern::{distinct, intern, interned, lemma_intern_distinct, new_interner};
use crate::languages::Ecosystem;

verus! {

/// A directed graph over file paths: an edge goes from a file that uses a definition to the
/// file that defines it. The node of a path is its index in `paths`.
#[derive(Debug)]
pub struct FileGraph {
    pub paths: Vec<String>,
    pub edges: Vec<(usize, usize)>,
}

/// A row of ecosystem `eco` has a reference in file `from` to a definition in another file `to`.
pub open spec fn uses_across(rows: Seq<DefinitionRow>, eco: Ecosystem, from: Seq<char>, to: Seq<char>) -> bool {
    from != to && exists|a: int, j: int|
        0 <= a < rows.len() && (#[trigger] rows[a]).ecosystem == eco && 0 <= j < rows[a].references@.len()
            && (#[trigger] rows[a].references@[j]).path@ == from && rows[a].definition.path@ == to
}

/// Path `x` is the file of a definition of ecosystem `eco`, or of one of its references.
pub open spec fn path_in_rows(rows: Seq<DefinitionRow>, eco: Ecosystem, x: Seq<char>) -> bool {
    exists|a: int|
        0 <= a < rows.len() && (#[trigger] rows[a]).ecosystem == eco && (rows[a].definition.path@ == x
            || exists|j: int| 0 <= j < rows[a].references@.len() && (#[trigger] rows[a].references@[j]).path@ == x)
}

/// Some node has path `x`.
pub open spec fn has_path(paths: Seq<String>, x: Seq<char>) -> bool {
    exists|k: int| 0 <= k < paths.len() && (#[trigger] paths[k])@ == x
}

/// The number of references that the rows hold.
pub open spec fn total_references(rows: Seq<DefinitionRow>) -> nat
    decreases rows.len(),
{
    if rows.len() == 0 {
        0
    } else {
        total_references(rows.drop_last()) + rows.last().references@.len()
    }
}

pub proof fn lemma_total_references(rows: Seq<DefinitionRow>, a: int)
    requires
        0 <= a < rows.len(),
    ensures
        total_references(rows.subrange(0, a)) + rows[a].references@.len() == total_references(
            rows.subrange(0, a + 1),
        ),
        total_references(rows.subrange(0, a + 1)) <= total_references(rows),
    decreases rows.len(),
{
    assert(rows.subrange(0, a + 1).drop_last() =~= rows.subrange(0, a));
    if a + 1 < rows.len() {
        lemma_total_references(rows.drop_last(), a);
        assert(rows.drop_last().subrange(0, a + 1) =~= rows.subrange(0, a + 1));
        assert(rows.drop_last().subrange(0, a) =~= rows.subrange(0, a));
    } else {
        assert(rows.subrange(0, a + 1) =~= rows);
    }
}

/// What the graph of ecosystem `eco` holds: distinct paths, edges between distinct files with
/// no edge twice, an edge exactly where a reference crosses files.
pub open spec fn graph_matches(g: FileGraph, rows: Seq<DefinitionRow>, eco: Ecosystem) -> bool {
    &&& distinct(g.paths@.map_values(|s: String| s@))
    &&& forall|k: int| 0 <= k < g.paths@.len() ==> path_in_rows(rows, eco, #[trigger] g.paths@[k]@)
    &&& forall|x: Seq<char>| #[trigger] path_in_rows(rows, eco, x) ==> has_path(g.paths@, x)
    &&& forall|e: int|
        0 <= e < g.edges@.len() ==> {
            let (u, d) = #[trigger] g.edges@[e];
            &&& u < g.paths@.len()
            &&& d < g.paths@.len()
            &&& u != d
            &&& uses_across(rows, eco, g.paths@[u as int]@, g.paths@[d as int]@)
        }
    &&& forall|e: int, f: int| 0 <= e < f < g.edges@.len() ==> g.edges@[e] != g.edges@[f]
    &&& forall|a: int, j: int|
        0 <= a < rows.len() && (#[trigger] rows[a]).ecosystem == eco && 0 <= j
            < rows[a].references@.len() && (#[trigger] rows[a].references@[j]).path@
            != rows[a].definition.path@ ==> has_path_edge(
            g.paths@,
            g.edges@,
            rows[a].references@[j].path@,
            rows[a].definition.path@,
        )
}

fn contains_index(v: &Vec<usize>, x: usize) -> (r: bool)
    ensures
        r == v@.contains(x),
{
    let mut i: usize = 0;
    while i < v.len()
        invariant
            i <= v@.len(),
            forall|k: int| 0 <= k < i ==> v@[k] != x,
        decreases v@.len() - i,
    {
        if v[i] == x {
            return true;
        }
        i = i + 1;
    }
    false
}

/// The node of path `p`, added when new.
fn path_node(paths: &mut Vec<String>, adj: &mut Vec<Vec<usize>>, r: &mut lasso::Rodeo, p: &String) -> (k: usize)
    requires
        old(paths)@.map_values(|s: String| s@) == interned(*old(r)),
        distinct(interned(*old(r))),
        old(adj)@.len() == old(paths)@.len(),
        interned(*old(r)).len() < u32::MAX,
    ensures
        final(paths)@.map_values(|s: String| s@) == interned(*final(r)),
        distinct(interned(*final(r))),
        final(adj)@.len() == final(paths)@.len(),
        k < final(paths)@.len(),
        final(paths)@[k as int]@ == p@,
        old(paths)@.len() <= final(paths)@.len() <= old(paths)@.len() + 1,
        final(paths)@.len() == old(paths)@.len() + 1 ==> k == old(paths)@.len(),
        forall|i: int| 0 <= i < old(paths)@.len() ==> final(paths)@[i]@ == old(paths)@[i]@,
        forall|i: int| 0 <= i < old(adj)@.len() ==> final(adj)@[i] == old(adj)@[i],
        forall|i: int| old(adj)@.len() <= i < final(adj)@.len() ==> final(adj)@[i]@.len() == 0,
{
    let ghost before = interned(*r);
    let k = intern(r, p.as_str());
    proof {
        lemma_intern_distinct(before, interned(*r), p@);
    }
    if k == paths.len() {
        let ghost old_paths = paths@;
        paths.push(p.clone());
        adj.push(Vec::new());
        proof {
            assert(!before.contains(p@)) by {
                if before.contains(p@) {
                    assert(k < before.len());
                    assert(before.len() == old_paths.len()) by {
                        assert(old_paths.map_values(|s: String| s@).len() == old_paths.len());
                    }
                }
            }
            assert(paths@.map_values(|s: String| s@) =~= old_paths.map_values(|s: String| s@).push(p@));
        }
    } else {
        proof {
            assert(paths@.map_values(|s: String| s@).len() == paths@.len());
            if !before.contains(p@) {
                assert(k == before.len());
            }
            assert(paths@.map_values(|s: String| s@)[k as int] == paths@[k as int]@);
        }
    }
    proof {
        assert forall|i: int| 0 <= i < paths@.len() implies #[trigger] paths@[i]@ == interned(*r)[i] by {
            assert(paths@.map_values(|s: String| s@)[i] == paths@[i]@);
        }
    }
    k
}

/// Some edge goes from node `u` to node `d`.
pub open spec fn has_edge(edges: Seq<(usize, usize)>, u: int, d: int) -> bool {
    exists|e: int| 0 <= e < edges.len() && (#[trigger] edges[e]).0 == u && edges[e].1 == d
}

/// Some edge goes from the node of path `from` to the node of path `to`.
pub open spec fn has_path_edge(paths: Seq<String>, edges: Seq<(usize, usize)>, from: Seq<char>, to: Seq<char>) -> bool {
    exists|e: int|
        0 <= e < edges.len() && paths[(#[trigger] edges[e]).0 as int]@ == from && paths[edges[e].1 as int]@ == to
}

/// The facts that hold of a graph under construction.
pub open spec fn building(paths: Seq<String>, adj: Seq<Vec<usize>>, edges: Seq<(usize, usize)>, rows: Seq<DefinitionRow>, eco: Ecosystem) -> bool {
    &&& adj.len() == paths.len()
    &&& forall|e: int|
        0 <= e < edges.len() ==> {
            let (u, d) = #[trigger] edges[e];
            &&& u < paths.len()
            &&& d < paths.len()
            &&& u != d
            &&& uses_across(rows, eco, paths[u as int]@, paths[d as int]@)
            &&& adj[u as int]@.contains(d)
        }
    &&& forall|u: int, i: int|
        0 <= u < adj.len() && 0 <= i < adj[u]@.len() ==> has_edge(edges, u, #[trigger] adj[u]@[i] as int)
    &&& forall|e: int, f: int| 0 <= e < f < edges.len() ==> edges[e] != edges[f]
}

/// New nodes keep what the graph held.
proof fn lemma_building_grow(
    paths: Seq<String>,
    adj: Seq<Vec<usize>>,
    paths2: Seq<String>,
    adj2: Seq<Vec<usize>>,
    edges: Seq<(usize, usize)>,
    rows: Seq<DefinitionRow>,
    eco: Ecosystem,
)
    requires
        building(paths, adj, edges, rows, eco),
        adj2.len() == paths2.len(),
        paths.len() <= paths2.len(),
        forall|i: int| 0 <= i < paths.len() ==> paths2[i]@ == paths[i]@,
        forall|i: int| 0 <= i < adj.len() ==> adj2[i] == adj[i],
        forall|i: int| adj.len() <= i < adj2.len() ==> adj2[i]@.len() == 0,
    ensures
        building(paths2, adj2, edges, rows, eco),
        forall|f: Seq<char>, t: Seq<char>| has_path_edge(paths, edges, f, t) ==> #[trigger] has_path_edge(paths2, edges, f, t),
        forall|x: Seq<char>| has_path(paths, x) ==> #[trigger] has_path(paths2, x),
{
    assert forall|x: Seq<char>| has_path(paths, x) implies #[trigger] has_path(paths2, x) by {
        let k = choose|k: int| 0 <= k < paths.len() && (#[trigger] paths[k])@ == x;
        assert(paths2[k]@ == x);
    }
    assert forall|u: int, i: int|
        0 <= u < adj2.len() && 0 <= i < adj2[u]@.len() implies has_edge(edges, u, #[trigger] adj2[u]@[i] as int) by {
        if u < adj.len() {
            assert(adj2[u] == adj[u]);
            assert(has_edge(edges, u, adj[u]@[i] as int));
        }
    }
    assert forall|e: int| 0 <= e < edges.len() implies {
            let (u, d) = #[trigger] edges[e];
            &&& u < paths2.len()
            &&& d < paths2.len()
            &&& u != d
            &&& uses_across(rows, eco, paths2[u as int]@, paths2[d as int]@)
            &&& adj2[u as int]@.contains(d)
        } by {
        let (u, d) = edges[e];
        assert(paths2[u as int]@ == paths[u as int]@);
        assert(paths2[d as int]@ == paths[d as int]@);
        assert(adj2[u as int] == adj[u as int]);
    }
    assert forall|f: Seq<char>, t: Seq<char>| has_path_edge(paths, edges, f, t) implies #[trigger] has_path_edge(paths2, edges, f, t) by {
        let e = choose|e: int|
            0 <= e < edges.len() && paths[(#[trigger] edges[e]).0 as int]@ == f && paths[edges[e].1 as int]@ == t;
        assert(paths2[edges[e].0 as int]@ == f);
        assert(paths2[edges[e].1 as int]@ == t);
    }
}

/// A new edge between two distinct nodes, not yet present, keeps what the graph held.
proof fn lemma_building_push(
    paths: Seq<String>,
    adj: Seq<Vec<usize>>,
    adj2: Seq<Vec<usize>>,
    edges: Seq<(usize, usize)>,
    rows: Seq<DefinitionRow>,
    eco: Ecosystem,
    u: usize,
    d: usize,
)
    requires
        building(paths, adj, edges, rows, eco),
        u < paths.len(),
        d < paths.len(),
        u != d,
        !adj[u as int]@.contains(d),
        uses_across(rows, eco, paths[u as int]@, paths[d as int]@),
        adj2.len() == adj.len(),
        forall|i: int| 0 <= i < adj.len() && i != u ==> adj2[i] == adj[i],
        adj2[u as int]@ == adj[u as int]@.push(d),
    ensures
        building(paths, adj2, edges.push((u, d)), rows, eco),
        has_path_edge(paths, edges.push((u, d)), paths[u as int]@, paths[d as int]@),
        forall|f: Seq<char>, t: Seq<char>|
            has_path_edge(paths, edges, f, t) ==> #[trigger] has_path_edge(paths, edges.push((u, d)), f, t),
{
    let edges2 = edges.push((u, d));
    assert forall|e: int| 0 <= e < edges2.len() implies {
            let (x, y) = #[trigger] edges2[e];
            &&& x < paths.len()
            &&& y < paths.len()
            &&& x != y
            &&& uses_across(rows, eco, paths[x as int]@, paths[y as int]@)
            &&& adj2[x as int]@.contains(y)
        } by {
        if e < edges.len() {
            assert(edges2[e] == edges[e]);
            let (x, y) = edges[e];
            assert(adj[x as int]@.contains(y));
            if x == u {
                assert(adj2[u as int]@.contains(y)) by {
                    let k = choose|k: int| 0 <= k < adj[u as int]@.len() && adj[u as int]@[k] == y;
                    assert(adj2[u as int]@[k] == y);
                }
            }
        } else {
            assert(adj2[u as int]@[adj[u as int]@.len() as int] == d);
        }
    }
    assert forall|x: int, i: int|
        0 <= x < adj2.len() && 0 <= i < adj2[x]@.len() implies has_edge(edges2, x, #[trigger] adj2[x]@[i] as int) by {
        if x == u && i == adj[u as int]@.len() {
            assert(edges2[edges.len() as int] == (u, d));
        } else {
            if x == u {
                assert(adj2[x]@[i] == adj[x]@[i]);
            } else {
                assert(adj2[x] == adj[x]);
            }
            assert(has_edge(edges, x, adj[x]@[i] as int));
            let e = choose|e: int| 0 <= e < edges.len() && (#[trigger] edges[e]).0 == x && edges[e].1 == adj[x]@[i] as int;
            assert(edges2[e] == edges[e]);
        }
    }
    assert forall|e: int, f: int| 0 <= e < f < edges2.len() implies edges2[e] != edges2[f] by {
        if f == edges.len() && edges2[e] == edges2[f] {
            assert(edges2[e] == edges[e]);
            assert(adj[u as int]@.contains(d));
        }
    }
    assert(edges2[edges.len() as int] == (u, d));
    assert forall|f: Seq<char>, t: Seq<char>| has_path_edge(paths, edges, f, t) implies #[trigger] has_path_edge(paths, edges2, f, t) by {
        let e = choose|e: int|
            0 <= e < edges.len() && paths[(#[trigger] edges[e]).0 as int]@ == f && paths[edges[e].1 as int]@ == t;
        assert(edges2[e] == edges[e]);
    }
}

/// The file graph of ecosystem `eco`: an edge from each file that uses a definition of
/// another file to that file, once.
#[verifier::rlimit(100)]
pub fn build_file_graph(eco: Ecosystem, rows: &Vec<DefinitionRow>) -> (g: FileGraph)
    requires
        2 * (rows@.len() + total_references(rows@)) + 2 < u32::MAX,
    ensures
        graph_matches(g, rows@, eco),
{
    let mut r = new_interner();
    let mut paths: Vec<String> = Vec::new();
    let mut adj: Vec<Vec<usize>> = Vec::new();
    let mut edges: Vec<(usize, usize)> = Vec::new();
    proof {
        assert(paths@.map_values(|s: String| s@) =~= interned(r));
    }
    let mut a: usize = 0;
    while a < rows.len()
        invariant
            a <= rows@.len(),
            2 * (rows@.len() + total_references(rows@)) + 2 < u32::MAX,
            paths@.map_values(|s: String| s@) == interned(r),
            distinct(interned(r)),
            interned(r).len() <= 2 * a + 2 * total_references(rows@.subrange(0, a as int)),
            building(paths@, adj@, edges@, rows@, eco),
            forall|k: int| 0 <= k < paths@.len() ==> path_in_rows(rows@, eco, #[trigger] paths@[k]@),
            forall|aa: int|
                0 <= aa < a && (#[trigger] rows@[aa]).ecosystem == eco ==> has_path(paths@, rows@[aa].definition.path@),
            forall|aa: int, j: int|
                0 <= aa < a && (#[trigger] rows@[aa]).ecosystem == eco && 0 <= j < rows@[aa].references@.len()
                    ==> has_path(paths@, (#[trigger] rows@[aa].references@[j]).path@),
            forall|aa: int, j: int|
                0 <= aa < a && (#[trigger] rows@[aa]).ecosystem == eco && 0 <= j
                    < rows@[aa].references@.len() && (#[trigger] rows@[aa].references@[j]).path@
                    != rows@[aa].definition.path@ ==> has_path_edge(
                    paths@,
                    edges@,
                    rows@[aa].references@[j].path@,
                    rows@[aa].definition.path@,
                ),
        decreases rows@.len() - a,
    {
        proof {
            lemma_total_references(rows@, a as int);
        }
        let row = &rows[a];
        let ghost pa = paths@;
        let ghost ea = edges@;
        if row.ecosystem == eco {
            let ghost paths_before_def = paths@;
            let ghost adj_before_def = adj@;
            let d = path_node(&mut paths, &mut adj, &mut r, &row.definition.path);
            proof {
                lemma_building_grow(paths_before_def, adj_before_def, paths@, adj@, edges@, rows@, eco);
                assert(path_in_rows(rows@, eco, row.definition.path@)) by {
                    assert(rows@[a as int] == *row);
                }
                assert forall|k: int| 0 <= k < paths@.len() implies path_in_rows(rows@, eco, #[trigger] paths@[k]@) by {
                    if k < paths_before_def.len() {
                        assert(paths@[k]@ == paths_before_def[k]@);
                    }
                }
                assert(has_path(paths@, row.definition.path@));
            }
            let mut j: usize = 0;
            while j < row.references.len()
                invariant
                    j <= row.references@.len(),
                    *row == rows@[a as int],
                    a < rows@.len(),
                    row.ecosystem == eco,
                    d < paths@.len(),
                    paths@[d as int]@ == row.definition.path@,
                    paths@.map_values(|s: String| s@) == interned(r),
                    distinct(interned(r)),
                    interned(r).len() <= 2 * a + 1 + j + 2 * total_references(rows@.subrange(0, a as int)),
                    total_references(rows@.subrange(0, a as int)) + row.references@.len() <= total_references(rows@),
                    2 * (rows@.len() + total_references(rows@)) + 2 < u32::MAX,
                    building(paths@, adj@, edges@, rows@, eco),
                    forall|f: Seq<char>, t: Seq<char>| has_path_edge(pa, ea, f, t) ==> #[trigger] has_path_edge(paths@, edges@, f, t),
                    forall|x: Seq<char>| has_path(pa, x) ==> #[trigger] has_path(paths@, x),
                    forall|k: int| 0 <= k < paths@.len() ==> path_in_rows(rows@, eco, #[trigger] paths@[k]@),
                    has_path(paths@, row.definition.path@),
                    forall|jj: int| 0 <= jj < j ==> has_path(paths@, (#[trigger] row.references@[jj]).path@),
                    forall|jj: int|
                        0 <= jj < j && (#[trigger] row.references@[jj]).path@ != row.definition.path@
                            ==> has_path_edge(paths@, edges@, row.references@[jj].path@, row.definition.path@),
                decreases row.references@.len() - j,
            {
                let ghost paths_before_ref = paths@;
                let ghost adj_before_ref = adj@;
                                let u = path_node(&mut paths, &mut adj, &mut r, &row.references[j].path);
                proof {
                    lemma_building_grow(paths_before_ref, adj_before_ref, paths@, adj@, edges@, rows@, eco);
                    assert(path_in_rows(rows@, eco, row.references@[j as int].path@)) by {
                        assert(rows@[a as int] == *row);
                        assert(rows@[a as int].references@[j as int] == row.references@[j as int]);
                    }
                    assert forall|k: int| 0 <= k < paths@.len() implies path_in_rows(rows@, eco, #[trigger] paths@[k]@) by {
                        if k < paths_before_ref.len() {
                            assert(paths@[k]@ == paths_before_ref[k]@);
                        }
                    }
                    assert(has_path(paths@, row.references@[j as int].path@));
                    assert(paths@[d as int]@ == paths_before_ref[d as int]@);
                    assert(paths@.map_values(|s: String| s@)[u as int] == paths@[u as int]@);
                    assert(paths@.map_values(|s: String| s@)[d as int] == paths@[d as int]@);
                }
                if u != d && !contains_index(&adj[u], d) {
                    let ghost adj2 = adj@;
                    let ghost e0 = edges@;
                    adj[u].push(d);
                    edges.push((u, d));
                    proof {
                        assert(paths@[u as int]@ != paths@[d as int]@);
                        assert(uses_across(rows@, eco, paths@[u as int]@, paths@[d as int]@)) by {
                            assert(rows@[a as int].references@[j as int] == row.references@[j as int]);
                        }
                        lemma_building_push(paths@, adj2, adj@, e0, rows@, eco, u, d);
                    }
                } else {
                    proof {
                        if row.references@[j as int].path@ != row.definition.path@ {
                            assert(u != d);
                            assert(adj@[u as int]@.contains(d));
                            let k = choose|k: int| 0 <= k < adj@[u as int]@.len() && adj@[u as int]@[k] == d;
                            assert(has_edge(edges@, u as int, adj@[u as int]@[k] as int));
                            let e = choose|e: int| 0 <= e < edges@.len() && (#[trigger] edges@[e]).0 == u && edges@[e].1 == d;
                            assert(has_path_edge(paths@, edges@, paths@[u as int]@, paths@[d as int]@));
                        }
                    }
                }
                j = j + 1;
            }
        }
        a = a + 1;
    }
    let g = FileGraph { paths, edges };
    proof {
        assert(g.paths@.map_values(|s: String| s@) == interned(r));
        assert forall|x: Seq<char>| #[trigger] path_in_rows(rows@, eco, x) implies has_path(g.paths@, x) by {
            let aa = choose|aa: int|
                0 <= aa < rows@.len() && (#[trigger] rows@[aa]).ecosystem == eco && (rows@[aa].definition.path@ == x
                    || exists|j: int| 0 <= j < rows@[aa].references@.len() && (#[trigger] rows@[aa].references@[j]).path@ == x);
            if rows@[aa].definition.path@ != x {
                let j = choose|j: int| 0 <= j < rows@[aa].references@.len() && (#[trigger] rows@[aa].references@[j]).path@ == x;
                assert(has_path(g.paths@, rows@[aa].references@[j].path@));
            }
        }
    }
    g
}

} // verus!
