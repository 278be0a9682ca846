use vstd::prelude::*;

use crate::find_references::{
    find_references, files_from, first_error, scan_matches, total_locations, CruxlinesError, FileResult, MAX_LOCATIONS,
    add_definition, build_table, ecosystem_at, ecosystem_rank, first_text, lemma_no_dup_push,
    lemma_rank_injective, no_dup, table_ok, views, DefinitionLine, Location, LocationView,
    ReferenceEdge, ReferenceScan, SymbolTable,
};
use crate::intern::{interned, new_interner};
use crate::languages::Ecosystem;
use crate::order::{key_lt, key_of, key_view, lemma_location_total, lemma_location_transitive, location_le, location_lt, sort_locations, sorted, sorted_all, views_of, Key};
use crate::text::string_of;

verus! {

/// One ranked unit: a definition with the references that resolve to it, sorted, its
/// recorded source line, and how many definitions of its ecosystem share its name.
#[derive(Debug)]
pub struct DefinitionRow {
    pub ecosystem: Ecosystem,
    pub definition: Location,
    pub definition_line: String,
    pub references: Vec<Location>,
    pub name_count: usize,
}

/// The usages of the edges from definition `d` in ecosystem `eco`, in edge order.
pub open spec fn usages_of(edges: Seq<ReferenceEdge>, eco: Ecosystem, d: LocationView) -> Seq<
    LocationView,
>
    decreases edges.len(),
{
    if edges.len() == 0 {
        seq![]
    } else {
        let e = edges.last();
        usages_of(edges.drop_last(), eco, d) + if e.ecosystem == eco && e.definition@ == d {
            seq![e.usage@]
        } else {
            seq![]
        }
    }
}

/// The definition lines of ecosystem `eco`, in order.
pub open spec fn lines_in(lines: Seq<DefinitionLine>, eco: Ecosystem) -> Seq<LocationView>
    decreases lines.len(),
{
    if lines.len() == 0 {
        seq![]
    } else {
        lines_in(lines.drop_last(), eco) + if lines.last().ecosystem == eco {
            seq![lines.last().definition@]
        } else {
            seq![]
        }
    }
}

/// The texts of `lines_in`, in the same order.
pub open spec fn texts_in(lines: Seq<DefinitionLine>, eco: Ecosystem) -> Seq<Seq<char>>
    decreases lines.len(),
{
    if lines.len() == 0 {
        seq![]
    } else {
        texts_in(lines.drop_last(), eco) + if lines.last().ecosystem == eco {
            seq![lines.last().text@]
        } else {
            seq![]
        }
    }
}

/// The scan knows `x` as a definition of ecosystem `eco`: it has a line for it, or an edge
/// from it.
pub open spec fn scan_defines(scan: ReferenceScan, eco: Ecosystem, x: LocationView) -> bool {
    lines_in(scan.definition_lines@, eco).contains(x) || exists|m: int|
        0 <= m < scan.edges@.len() && (#[trigger] scan.edges@[m]).ecosystem == eco
            && scan.edges@[m].definition@ == x
}

/// One of the first `hi` edges goes from `d` in ecosystem `eco`.
pub open spec fn from_edge(edges: Seq<ReferenceEdge>, eco: Ecosystem, d: LocationView, hi: int) -> bool {
    exists|m: int|
        0 <= m < hi && m < edges.len() && (#[trigger] edges[m]).ecosystem == eco && edges[m].definition@ == d
}

pub proof fn lemma_from_edge_grow(edges: Seq<ReferenceEdge>, eco: Ecosystem, d: LocationView, hi: int)
    requires
        from_edge(edges, eco, d, hi),
    ensures
        from_edge(edges, eco, d, hi + 1),
{
    let m = choose|m: int|
        0 <= m < hi && m < edges.len() && (#[trigger] edges[m]).ecosystem == eco && edges[m].definition@ == d;
}

/// How many of `known` carry the name `name`.
pub open spec fn count_named(known: Seq<LocationView>, name: Seq<char>) -> nat
    decreases known.len(),
{
    if known.len() == 0 {
        0
    } else {
        count_named(known.drop_last(), name) + if known.last().3 == name {
            1nat
        } else {
            0nat
        }
    }
}

pub proof fn lemma_lines_in_len(lines: Seq<DefinitionLine>, eco: Ecosystem)
    ensures
        lines_in(lines, eco).len() == texts_in(lines, eco).len(),
        lines_in(lines, eco).len() <= lines.len(),
    decreases lines.len(),
{
    if lines.len() > 0 {
        lemma_lines_in_len(lines.drop_last(), eco);
    }
}

fn lines_of_ecosystem(eco: Ecosystem, lines: &Vec<DefinitionLine>) -> (r: (
    Vec<Location>,
    Vec<String>,
))
    ensures
        views(r.0@) == lines_in(lines@, eco),
        r.1@.map_values(|t: String| t@) == texts_in(lines@, eco),
        r.0@.len() == r.1@.len(),
{
    let mut defs: Vec<Location> = Vec::new();
    let mut texts: Vec<String> = Vec::new();
    let mut i: usize = 0;
    while i < lines.len()
        invariant
            i <= lines@.len(),
            defs@.len() == texts@.len(),
            views(defs@) == lines_in(lines@.subrange(0, i as int), eco),
            texts@.map_values(|t: String| t@) == texts_in(lines@.subrange(0, i as int), eco),
        decreases lines@.len() - i,
    {
        proof {
            assert(lines@.subrange(0, i + 1).drop_last() =~= lines@.subrange(0, i as int));
        }
        if lines[i].ecosystem == eco {
            let d = lines[i].definition.duplicate();
            let t = lines[i].text.clone();
            let ghost d0 = views(defs@);
            let ghost t0 = texts@.map_values(|t: String| t@);
            defs.push(d);
            texts.push(t);
            proof {
                assert(views(defs@) =~= d0.push(d@));
                assert(texts@.map_values(|t: String| t@) =~= t0.push(t@));
            }
        }
        i = i + 1;
    }
    proof {
        assert(lines@.subrange(0, lines@.len() as int) =~= lines@);
    }
    (defs, texts)
}

/// What the rows of ecosystem `eco` hold, given the distinct definitions `known` that the
/// scan has for it.
pub open spec fn rows_match(
    rows: Seq<DefinitionRow>,
    scan: ReferenceScan,
    eco: Ecosystem,
    known: Seq<LocationView>,
) -> bool {
    &&& no_dup(known)
    &&& forall|x: LocationView| #[trigger] known.contains(x) <==> scan_defines(scan, eco, x)
    &&& forall|a: int|
        0 <= a < rows.len() ==> {
            let row = #[trigger] rows[a];
            &&& row.ecosystem == eco
            &&& row.references@.len() > 0
            &&& sorted(views_of(row.references@))
            &&& views_of(row.references@).to_multiset() == usages_of(
                scan.edges@,
                eco,
                row.definition@,
            ).to_multiset()
            &&& row.name_count == if count_named(known, row.definition@.3) == 0 {
                1
            } else {
                count_named(known, row.definition@.3)
            }
            &&& if lines_in(scan.definition_lines@, eco).contains(row.definition@) {
                first_text(
                    lines_in(scan.definition_lines@, eco),
                    texts_in(scan.definition_lines@, eco),
                    row.definition@,
                    row.definition_line@,
                )
            } else {
                row.definition_line@.len() == 0
            }
        }
    &&& forall|a: int, b: int|
        0 <= a < b < rows.len() ==> rows[a].definition@ != rows[b].definition@
    &&& forall|m: int|
        0 <= m < scan.edges@.len() && (#[trigger] scan.edges@[m]).ecosystem == eco ==> exists|
            a: int,
        | 0 <= a < rows.len() && (#[trigger] rows[a]).definition@ == scan.edges@[m].definition@
}

/// An edge from `d` in `eco` gives `d` a usage.
pub proof fn lemma_usages_present(edges: Seq<ReferenceEdge>, eco: Ecosystem, d: LocationView, m: int)
    requires
        0 <= m < edges.len(),
        edges[m].ecosystem == eco,
        edges[m].definition@ == d,
    ensures
        usages_of(edges, eco, d).len() > 0,
    decreases edges.len(),
{
    if m < edges.len() - 1 {
        assert(edges.drop_last()[m] == edges[m]);
        lemma_usages_present(edges.drop_last(), eco, d, m);
    }
}

/// Without an edge from `d` in `eco`, `d` has no usages.
pub proof fn lemma_usages_absent(edges: Seq<ReferenceEdge>, eco: Ecosystem, d: LocationView)
    requires
        forall|m: int|
            0 <= m < edges.len() && (#[trigger] edges[m]).ecosystem == eco ==> edges[m].definition@ != d,
    ensures
        usages_of(edges, eco, d) == Seq::<LocationView>::empty(),
    decreases edges.len(),
{
    if edges.len() > 0 {
        assert(edges.drop_last().len() == edges.len() - 1);
        assert forall|m: int|
            0 <= m < edges.drop_last().len() && (#[trigger] edges.drop_last()[m]).ecosystem == eco
                implies edges.drop_last()[m].definition@ != d by {
            assert(edges.drop_last()[m] == edges[m]);
        }
        lemma_usages_absent(edges.drop_last(), eco, d);
        assert(edges.last() == edges[edges.len() - 1]);
    }
}

pub proof fn lemma_count_named_bound(known: Seq<LocationView>, name: Seq<char>)
    ensures
        count_named(known, name) <= known.len(),
    decreases known.len(),
{
    if known.len() > 0 {
        lemma_count_named_bound(known.drop_last(), name);
    }
}

/// The rows of the table's definitions that have references.
fn rows_of_table(
    eco: Ecosystem,
    t: &SymbolTable,
    r: &lasso::Rodeo,
    refs: Vec<Vec<Location>>,
    known: Ghost<Seq<LocationView>>,
) -> (res: (Vec<DefinitionRow>, Ghost<Seq<int>>))
    requires
        table_ok(*t, interned(*r)),
        refs@.len() == t.defs@.len(),
        known@ == views(t.defs@),
        no_dup(known@),
    ensures
        res.1@.len() == res.0@.len(),
        forall|a: int|
            0 <= a < res.0@.len() ==> {
                let row = #[trigger] res.0@[a];
                let k = res.1@[a];
                &&& 0 <= k < t.defs@.len()
                &&& row.ecosystem == eco
                &&& row.definition@ == t.defs@[k]@
                &&& row.definition_line@ == t.texts@[k]@
                &&& row.references@.len() > 0
                &&& sorted(views_of(row.references@))
                &&& views_of(row.references@).to_multiset() == views_of(refs@[k]@).to_multiset()
                &&& row.name_count == if count_named(known@, row.definition@.3) == 0 {
                    1
                } else {
                    count_named(known@, row.definition@.3)
                }
            },
        forall|a: int, b: int|
            0 <= a < b < res.0@.len() ==> res.0@[a].definition@ != res.0@[b].definition@,
        forall|k: int|
            0 <= k < t.defs@.len() && (#[trigger] refs@[k])@.len() > 0 ==> exists|a: int|
                0 <= a < res.0@.len() && (#[trigger] res.0@[a]).definition@ == t.defs@[k]@,
{
    let ghost keys = interned(*r);
    let n = t.defs.len();
    let mut counts: Vec<usize> = Vec::new();
    while counts.len() < t.by_name.len()
        invariant
            counts@.len() <= keys.len(),
            t.by_name@.len() == keys.len(),
            forall|id: int| 0 <= id < counts@.len() ==> #[trigger] counts@[id] == 0,
        decreases keys.len() - counts@.len(),
    {
        counts.push(0);
    }
    proof {
        assert forall|id: int| 0 <= id < counts@.len() implies #[trigger] counts@[id] == count_named(known@.subrange(0, 0), keys[id]) by {
        }
    }
    let mut k: usize = 0;
    while k < n
        invariant
            n == t.defs@.len(),
            k <= n,
            table_ok(*t, keys),
            known@ == views(t.defs@),
            counts@.len() == keys.len(),
            forall|id: int| 0 <= id < counts@.len() ==> #[trigger] counts@[id] == count_named(known@.subrange(0, k as int), keys[id]),
        decreases n - k,
    {
        let id = t.name_key[k];
        proof {
            lemma_count_named_bound(known@.subrange(0, k as int), keys[id as int]);
            assert(known@.subrange(0, k + 1).drop_last() =~= known@.subrange(0, k as int));
            assert(known@[k as int] == t.defs@[k as int]@);
        }
        counts.set(id, counts[id] + 1);
        proof {
            assert forall|j: int| 0 <= j < counts@.len() implies #[trigger] counts@[j] == count_named(known@.subrange(0, k + 1), keys[j]) by {
                if j != id {
                    assert(keys[j] != keys[id as int]);
                }
            }
        }
        k = k + 1;
    }
    proof {
        assert(known@.subrange(0, n as int) =~= known@);
    }
    let mut rows: Vec<DefinitionRow> = Vec::new();
    let ghost picked: Seq<int> = Seq::empty();
    let mut k: usize = 0;
    while k < n
        invariant
            n == t.defs@.len(),
            k <= n,
            refs@.len() == n,
            rows@.len() <= k,
            table_ok(*t, keys),
            known@ == views(t.defs@),
            no_dup(known@),
            counts@.len() == keys.len(),
            forall|id: int| 0 <= id < counts@.len() ==> #[trigger] counts@[id] == count_named(known@, keys[id]),
            picked.len() == rows@.len(),
            forall|a: int| 0 <= a < picked.len() ==> 0 <= #[trigger] picked[a] < k,
            forall|a: int, b: int| 0 <= a < b < picked.len() ==> picked[a] < picked[b],
            forall|a: int|
                0 <= a < rows@.len() ==> {
                    let row = #[trigger] rows@[a];
                    let kk = picked[a];
                    &&& row.ecosystem == eco
                    &&& row.definition@ == t.defs@[kk]@
                    &&& row.definition_line@ == t.texts@[kk]@
                    &&& row.references@.len() > 0
                    &&& sorted(views_of(row.references@))
                    &&& views_of(row.references@).to_multiset() == views_of(refs@[kk]@).to_multiset()
                    &&& row.name_count == if count_named(known@, row.definition@.3) == 0 {
                        1
                    } else {
                        count_named(known@, row.definition@.3)
                    }
                },
            forall|kk: int|
                0 <= kk < k && (#[trigger] refs@[kk])@.len() > 0 ==> exists|a: int|
                    0 <= a < picked.len() && picked[a] == kk,
        decreases n - k,
    {
        let ghost old_picked = picked;
        let ghost old_rows = rows@;
        if refs[k].len() > 0 {
            let sorted_refs = sort_locations(&refs[k]);
            let c = counts[t.name_key[k]];
            proof {
                assert(known@[k as int] == t.defs@[k as int]@);
            }
            let row = DefinitionRow {
                ecosystem: eco,
                definition: t.defs[k].duplicate(),
                definition_line: t.texts[k].clone(),
                references: sorted_refs,
                name_count: if c == 0 { 1 } else { c },
            };
            proof {
                vstd::seq_lib::to_multiset_len(views_of(row.references@));
                vstd::seq_lib::to_multiset_len(views_of(refs@[k as int]@));
            }
            rows.push(row);
            proof {
                picked = picked.push(k as int);
                assert forall|a: int| 0 <= a < rows@.len() implies {
                    let row = #[trigger] rows@[a];
                    let kk = picked[a];
                    &&& row.ecosystem == eco
                    &&& row.definition@ == t.defs@[kk]@
                    &&& row.definition_line@ == t.texts@[kk]@
                    &&& row.references@.len() > 0
                    &&& sorted(views_of(row.references@))
                    &&& views_of(row.references@).to_multiset() == views_of(refs@[kk]@).to_multiset()
                    &&& row.name_count == if count_named(known@, row.definition@.3) == 0 {
                        1
                    } else {
                        count_named(known@, row.definition@.3)
                    }
                } by {
                    if a < old_rows.len() {
                        assert(rows@[a] == old_rows[a]);
                        assert(picked[a] == old_picked[a]);
                    }
                }
            }
        }
        proof {
            assert forall|kk: int|
                0 <= kk < k + 1 && (#[trigger] refs@[kk])@.len() > 0 implies exists|a: int|
                    0 <= a < picked.len() && picked[a] == kk by {
                if kk < k {
                    let a = choose|a: int| 0 <= a < old_picked.len() && old_picked[a] == kk;
                    assert(picked[a] == kk);
                } else {
                    assert(picked[picked.len() - 1] == kk);
                }
            }
        }
        k = k + 1;
    }
    proof {
        assert forall|a: int, b: int|
            0 <= a < b < rows@.len() implies rows@[a].definition@ != rows@[b].definition@ by {
            assert(known@[picked[a]] == t.defs@[picked[a]]@);
            assert(known@[picked[b]] == t.defs@[picked[b]]@);
        }
        assert forall|kk: int|
            0 <= kk < t.defs@.len() && (#[trigger] refs@[kk])@.len() > 0 implies exists|a: int|
                0 <= a < rows@.len() && (#[trigger] rows@[a]).definition@ == t.defs@[kk]@ by {
            let a = choose|a: int| 0 <= a < picked.len() && picked[a] == kk;
            assert(rows@[a].definition@ == t.defs@[kk]@);
        }
    }
    (rows, Ghost(picked))
}

fn ecosystem_rows(eco: Ecosystem, scan: &ReferenceScan) -> (r: (Vec<DefinitionRow>, Ghost<Seq<LocationView>>))
    requires
        2 * (scan.definition_lines@.len() + scan.edges@.len()) + 4 < u32::MAX,
    ensures
        rows_match(r.0@, *scan, eco, r.1@),
{
    let (defs, texts) = lines_of_ecosystem(eco, &scan.definition_lines);
    proof {
        lemma_lines_in_len(scan.definition_lines@, eco);
    }
    let mut r = new_interner();
    let mut t = build_table(&defs, &texts, &mut r);
    let ghost base = views(t.defs@);
    let ghost base_len = t.defs@.len();
    let ghost lv = lines_in(scan.definition_lines@, eco);
    let ghost tv = texts_in(scan.definition_lines@, eco);
    let mut refs: Vec<Vec<Location>> = Vec::new();
    while refs.len() < t.defs.len()
        invariant
            refs@.len() <= t.defs@.len(),
            forall|k: int| 0 <= k < refs@.len() ==> (#[trigger] refs@[k])@.len() == 0,
        decreases t.defs@.len() - refs@.len(),
    {
        refs.push(Vec::new());
    }
    proof {
        assert forall|k: int| 0 <= k < refs@.len() implies views_of(#[trigger] refs@[k]@)
            == usages_of(scan.edges@.subrange(0, 0), eco, t.defs@[k]@) by {
            assert(views_of(refs@[k]@) =~= Seq::<LocationView>::empty());
        }
    }
    let empty = string_of(&[]);
    let mut i: usize = 0;
    while i < scan.edges.len()
        invariant
            i <= scan.edges@.len(),
            2 * (scan.definition_lines@.len() + scan.edges@.len()) + 4 < u32::MAX,
            table_ok(t, interned(r)),
            interned(r).len() <= 2 * lv.len() + 2 * i,
            lv == lines_in(scan.definition_lines@, eco),
            tv == texts_in(scan.definition_lines@, eco),
            lv.len() <= scan.definition_lines@.len(),
            no_dup(views(t.defs@)),
            empty@.len() == 0,
            base_len <= t.defs@.len(),
            forall|k: int| 0 <= k < base_len ==> views(t.defs@)[k] == base[k],
            forall|k: int|
                0 <= k < base_len ==> first_text(lv, tv, #[trigger] t.defs@[k]@, t.texts@[k]@),
            forall|k: int| base_len <= k < t.defs@.len() ==> !lv.contains(#[trigger] t.defs@[k]@),
            forall|k: int| base_len <= k < t.texts@.len() ==> (#[trigger] t.texts@[k])@.len() == 0,
            forall|k: int|
                base_len <= k < t.defs@.len() ==> from_edge(scan.edges@, eco, #[trigger] t.defs@[k]@, i as int),
            forall|x: LocationView| lv.contains(x) ==> #[trigger] views(t.defs@).contains(x),
            forall|m: int|
                0 <= m < i && (#[trigger] scan.edges@[m]).ecosystem == eco ==> views(
                    t.defs@,
                ).contains(scan.edges@[m].definition@),
            refs@.len() == t.defs@.len(),
            forall|k: int|
                0 <= k < refs@.len() ==> views_of(#[trigger] refs@[k]@) == usages_of(
                    scan.edges@.subrange(0, i as int),
                    eco,
                    t.defs@[k]@,
                ),
        decreases scan.edges@.len() - i,
    {
        let e = &scan.edges[i];
        let ghost old_defs = t.defs@;
        let ghost before = views(t.defs@);
        let ghost before_texts = t.texts@;
        let ghost old_refs = refs@;
        proof {
            assert(scan.edges@.subrange(0, i + 1).drop_last() =~= scan.edges@.subrange(0, i as int));
            assert(scan.edges@.subrange(0, i + 1).last() == *e);
        }
        if e.ecosystem == eco {
            let k = add_definition(&mut t, &mut r, &e.definition, &empty);
            proof {
                if !before.contains(e.definition@) {
                    lemma_no_dup_push(before, e.definition@);
                    assert(views(t.defs@) == before.push(e.definition@));
                    assert(views(t.defs@)[k as int] == e.definition@);
                    assert(k == before.len());
                } else {
                    assert(views(t.defs@) == before);
                }
            }
            if k == refs.len() {
                refs.push(Vec::new());
            }
            let u = e.usage.duplicate();
            let ghost mid = refs@;
            refs[k].push(u);
            proof {
                let pre = scan.edges@.subrange(0, i as int);
                let post = scan.edges@.subrange(0, i + 1);
                assert(post.drop_last() == pre);
                assert(post.last() == *e);
                assert forall|kk: int| 0 <= kk < refs@.len() implies views_of(#[trigger] refs@[kk]@)
                    == usages_of(post, eco, t.defs@[kk]@) by {
                    assert(views(t.defs@)[kk] == t.defs@[kk]@);
                    assert(views(t.defs@)[k as int] == t.defs@[k as int]@);
                    if kk < before.len() {
                        assert(before[kk] == views(t.defs@)[kk]);
                    }
                    if kk == k {
                        assert(views_of(refs@[kk]@) =~= views_of(mid[kk]@).push(u@));
                        assert(usages_of(post, eco, t.defs@[kk]@) == usages_of(pre, eco, t.defs@[kk]@).push(u@));
                        if k < old_refs.len() {
                            assert(mid[kk] == old_refs[kk]);
                        } else {
                            assert(!before.contains(e.definition@));
                            assert forall|m: int|
                                0 <= m < pre.len() && (#[trigger] pre[m]).ecosystem == eco implies pre[m].definition@
                                    != e.definition@ by {
                                assert(pre[m] == scan.edges@[m]);
                                assert(before.contains(scan.edges@[m].definition@));
                            }
                            lemma_usages_absent(pre, eco, e.definition@);
                            assert(views_of(mid[kk]@) =~= Seq::<LocationView>::empty());
                        }
                    } else {
                        assert(refs@[kk] == mid[kk]);
                        assert(views(t.defs@)[kk] != views(t.defs@)[k as int]);
                        assert(t.defs@[kk]@ != e.definition@);
                        assert(usages_of(post, eco, t.defs@[kk]@) == usages_of(pre, eco, t.defs@[kk]@));
                        assert(mid[kk] == old_refs[kk]);
                    }
                }
                assert forall|kk: int|
                    base_len <= kk < t.defs@.len() implies !lv.contains(#[trigger] t.defs@[kk]@)
                        && from_edge(scan.edges@, eco, t.defs@[kk]@, i + 1) by {
                    assert(views(t.defs@)[kk] == t.defs@[kk]@);
                    if kk < before.len() {
                        assert(before[kk] == t.defs@[kk]@);
                        assert(before[kk] == old_defs[kk]@);
                        assert(!lv.contains(old_defs[kk]@));
                        assert(t.texts@.map_values(|s: String| s@)[kk] == before_texts.map_values(|s: String| s@)[kk]);
                        assert(before_texts.map_values(|s: String| s@)[kk] == before_texts[kk]@);
                        assert(before_texts[kk]@.len() == 0);
                        assert(from_edge(scan.edges@, eco, before[kk], i as int));
                        lemma_from_edge_grow(scan.edges@, eco, before[kk], i as int);
                    } else {
                        assert(t.defs@[kk]@ == e.definition@);
                        assert(t.texts@.map_values(|s: String| s@)[kk] == t.texts@[kk]@);
                        assert(!before.contains(e.definition@)) by {
                            if before.contains(e.definition@) {
                                assert(views(t.defs@) == before);
                                assert(views(t.defs@).len() == t.defs@.len());
                            }
                        }
                        assert(t.texts@.map_values(|s: String| s@) == before_texts.map_values(|s: String| s@).push(empty@));
                        assert(before_texts.len() == before.len());
                        assert(kk == before.len()) by {
                            assert(views(t.defs@) == before.push(e.definition@));
                            assert(views(t.defs@).len() == t.defs@.len());
                        }
                        assert(t.texts@[kk]@ == empty@);
                        assert(scan.edges@[i as int] == *e);
                        assert(from_edge(scan.edges@, eco, t.defs@[kk]@, i + 1));
                        if lv.contains(t.defs@[kk]@) {
                            assert(before.contains(t.defs@[kk]@));
                        }
                    }
                }
                assert forall|x: LocationView| lv.contains(x) implies #[trigger] views(t.defs@).contains(x) by {
                    assert(before.contains(x));
                    let q = choose|q: int| 0 <= q < before.len() && before[q] == x;
                    assert(views(t.defs@)[q] == x);
                }
                assert forall|m: int|
                    0 <= m < i + 1 && (#[trigger] scan.edges@[m]).ecosystem == eco implies views(
                        t.defs@,
                    ).contains(scan.edges@[m].definition@) by {
                    if m < i {
                        assert(before.contains(scan.edges@[m].definition@));
                        let q = choose|q: int| 0 <= q < before.len() && before[q] == scan.edges@[m].definition@;
                        assert(views(t.defs@)[q] == before[q]);
                    } else {
                        assert(views(t.defs@)[k as int] == e.definition@);
                    }
                }
                assert forall|kk: int| 0 <= kk < base_len implies first_text(lv, tv, #[trigger] t.defs@[kk]@, t.texts@[kk]@) by {
                    assert(views(t.defs@)[kk] == before[kk]);
                    assert(before[kk] == t.defs@[kk]@) by {
                        assert(views(t.defs@)[kk] == t.defs@[kk]@);
                    }
                    assert(t.texts@.map_values(|s: String| s@)[kk] == before_texts.map_values(|s: String| s@)[kk]);
                }
                assert forall|kk: int| base_len <= kk < t.texts@.len() implies (#[trigger] t.texts@[kk])@.len() == 0 by {
                    assert(t.texts@.len() == t.defs@.len());
                    assert(t.texts@.map_values(|s: String| s@)[kk] == t.texts@[kk]@);
                    if kk < before.len() {
                        assert(t.texts@.map_values(|s: String| s@)[kk] == before_texts.map_values(|s: String| s@)[kk]);
                        assert(before_texts.map_values(|s: String| s@)[kk] == before_texts[kk]@);
                    } else {
                        assert(views(t.defs@).len() == t.defs@.len());
                        assert(t.texts@.map_values(|s: String| s@) == before_texts.map_values(|s: String| s@).push(empty@));
                    }
                }
            }
        } else {
            proof {
                assert forall|kk: int| 0 <= kk < refs@.len() implies views_of(#[trigger] refs@[kk]@)
                    == usages_of(scan.edges@.subrange(0, i + 1), eco, t.defs@[kk]@) by {
                }
                assert forall|kk: int|
                    base_len <= kk < t.defs@.len() implies !lv.contains(#[trigger] t.defs@[kk]@)
                        && from_edge(scan.edges@, eco, t.defs@[kk]@, i + 1) by {
                    assert(from_edge(scan.edges@, eco, t.defs@[kk]@, i as int));
                    lemma_from_edge_grow(scan.edges@, eco, t.defs@[kk]@, i as int);
                }
            }
        }
        i = i + 1;
    }
    proof {
        assert(scan.edges@.subrange(0, scan.edges@.len() as int) =~= scan.edges@);
    }
    let ghost known = views(t.defs@);
    let ghost refs_view = refs@;
    let (rows, picked) = rows_of_table(eco, &t, &r, refs, Ghost(known));
    proof {
        assert forall|x: LocationView| #[trigger] known.contains(x) <==> scan_defines(*scan, eco, x) by {
            if known.contains(x) {
                let k = choose|k: int| 0 <= k < known.len() && known[k] == x;
                assert(known[k] == t.defs@[k]@);
                if k < base_len {
                    assert(first_text(lv, tv, t.defs@[k]@, t.texts@[k]@));
                    let q = choose|q: int| 0 <= q < lv.len() && q < tv.len() && lv[q] == t.defs@[k]@ && tv[q] == t.texts@[k]@ && forall|j: int| 0 <= j < q ==> lv[j] != t.defs@[k]@;
                    assert(lv.contains(x));
                } else {
                    assert(!lv.contains(t.defs@[k]@));
                    assert(from_edge(scan.edges@, eco, t.defs@[k]@, scan.edges@.len() as int));
                }
            }
            if scan_defines(*scan, eco, x) {
                if !lv.contains(x) {
                    let m = choose|m: int|
                        0 <= m < scan.edges@.len() && (#[trigger] scan.edges@[m]).ecosystem == eco
                            && scan.edges@[m].definition@ == x;
                    assert(views(t.defs@).contains(scan.edges@[m].definition@));
                }
            }
        }
        assert forall|a: int| 0 <= a < rows@.len() implies {
            let row = #[trigger] rows@[a];
            &&& row.ecosystem == eco
            &&& row.references@.len() > 0
            &&& sorted(views_of(row.references@))
            &&& views_of(row.references@).to_multiset() == usages_of(
                scan.edges@,
                eco,
                row.definition@,
            ).to_multiset()
            &&& row.name_count == if count_named(known, row.definition@.3) == 0 {
                1
            } else {
                count_named(known, row.definition@.3)
            }
            &&& if lines_in(scan.definition_lines@, eco).contains(row.definition@) {
                first_text(
                    lines_in(scan.definition_lines@, eco),
                    texts_in(scan.definition_lines@, eco),
                    row.definition@,
                    row.definition_line@,
                )
            } else {
                row.definition_line@.len() == 0
            }
        } by {
            let row = rows@[a];
            let k = picked@[a];
            assert(views_of(refs_view[k]@) == usages_of(scan.edges@, eco, t.defs@[k]@));
            if k < base_len {
                assert(first_text(lv, tv, t.defs@[k]@, t.texts@[k]@));
                let q = choose|q: int| 0 <= q < lv.len() && q < tv.len() && lv[q] == t.defs@[k]@ && tv[q] == t.texts@[k]@ && forall|j: int| 0 <= j < q ==> lv[j] != t.defs@[k]@;
                assert(lv.contains(row.definition@));
            } else {
                assert(!lv.contains(t.defs@[k]@));
            }
        }
        assert forall|m: int|
            0 <= m < scan.edges@.len() && (#[trigger] scan.edges@[m]).ecosystem == eco implies exists|
                a: int,
            | 0 <= a < rows@.len() && (#[trigger] rows@[a]).definition@ == scan.edges@[m].definition@ by {
            let d = scan.edges@[m].definition@;
            assert(views(t.defs@).contains(d));
            let k = choose|k: int| 0 <= k < views(t.defs@).len() && views(t.defs@)[k] == d;
            assert(views(t.defs@)[k] == t.defs@[k]@);
            lemma_usages_present(scan.edges@, eco, d, m);
            assert(views_of(refs_view[k]@) == usages_of(scan.edges@, eco, t.defs@[k]@));
            assert(views_of(refs_view[k]@).len() == refs_view[k]@.len());
            assert(refs_view[k]@.len() > 0);
        }
    }
    (rows, Ghost(known))
}

/// The facts about one row, given the definitions `known` of its ecosystem.
#[verifier::opaque]
pub open spec fn row_ok(row: DefinitionRow, scan: ReferenceScan, known: Seq<LocationView>) -> bool {
    let eco = row.ecosystem;
    &&& row.references@.len() > 0
    &&& sorted(views_of(row.references@))
    &&& views_of(row.references@).to_multiset() == usages_of(scan.edges@, eco, row.definition@).to_multiset()
    &&& row.name_count == if count_named(known, row.definition@.3) == 0 {
        1
    } else {
        count_named(known, row.definition@.3)
    }
    &&& if lines_in(scan.definition_lines@, eco).contains(row.definition@) {
        first_text(
            lines_in(scan.definition_lines@, eco),
            texts_in(scan.definition_lines@, eco),
            row.definition@,
            row.definition_line@,
        )
    } else {
        row.definition_line@.len() == 0
    }
}

/// Two rows are for the same definition of the same ecosystem.
pub open spec fn same_key(a: DefinitionRow, b: DefinitionRow) -> bool {
    a.ecosystem == b.ecosystem && a.definition@ == b.definition@
}

/// What the rows of a scan hold: each row is right about its definition, given the distinct
/// definitions `knowns[ecosystem_rank(eco)]` that the scan has for each ecosystem; no two
/// rows share a definition; every edge has its row; and the rows come in the order of their
/// definitions.
#[verifier::opaque]
pub open spec fn all_rows_match(
    rows: Seq<DefinitionRow>,
    scan: ReferenceScan,
    knowns: Seq<Seq<LocationView>>,
) -> bool {
    &&& knowns.len() == 8
    &&& forall|eco: Ecosystem|
        no_dup(#[trigger] knowns[ecosystem_rank(eco)]) && forall|x: LocationView|
            #[trigger] knowns[ecosystem_rank(eco)].contains(x) <==> scan_defines(scan, eco, x)
    &&& forall|a: int|
        0 <= a < rows.len() ==> row_ok(#[trigger] rows[a], scan, knowns[ecosystem_rank(rows[a].ecosystem)])
    &&& forall|a: int, b: int| 0 <= a < b < rows.len() ==> !same_key(rows[a], rows[b])
    &&& forall|m: int|
        0 <= m < scan.edges@.len() ==> exists|a: int|
            0 <= a < rows.len() && (#[trigger] rows[a]).ecosystem == (#[trigger] scan.edges@[m]).ecosystem
                && rows[a].definition@ == scan.edges@[m].definition@
    &&& forall|a: int|
        0 <= a < rows.len() - 1 ==> location_le((#[trigger] rows[a]).definition@, rows[a + 1].definition@)
}

/// No two rows share a definition of one ecosystem.
pub open spec fn distinct_keys(s: Seq<DefinitionRow>) -> bool {
    forall|a: int, b: int| 0 <= a < b < s.len() ==> !same_key(s[a], s[b])
}

/// Taking out the row at `i` and putting it back at `j` keeps the rows and their distinctness.
pub proof fn lemma_move_row(s: Seq<DefinitionRow>, i: int, j: int)
    requires
        0 <= i < s.len(),
        0 <= j <= i,
    ensures
        s.remove(i).insert(j, s[i]).to_multiset() == s.to_multiset(),
        s.remove(i).insert(j, s[i]).len() == s.len(),
        distinct_keys(s) ==> distinct_keys(s.remove(i).insert(j, s[i])),
{
    let m = s.remove(i);
    let t = m.insert(j, s[i]);
    vstd::seq_lib::to_multiset_remove(s, i);
    vstd::seq_lib::to_multiset_insert(m, j, s[i]);
    vstd::seq_lib::to_multiset_contains(s, s[i]);
    assert(s.to_multiset().remove(s[i]).insert(s[i]) =~= s.to_multiset());
    if distinct_keys(s) {
        assert forall|a: int, b: int| 0 <= a < b < t.len() implies !same_key(t[a], t[b]) by {
            let ia = if a < j { if a < i { a } else { a + 1 } } else if a == j { i } else if a - 1 < i { a - 1 } else { a };
            let ib = if b < j { if b < i { b } else { b + 1 } } else if b == j { i } else if b - 1 < i { b - 1 } else { b };
            assert(t[a] == s[ia]);
            assert(t[b] == s[ib]);
            assert(ia != ib);
            if ia < ib {
                assert(!same_key(s[ia], s[ib]));
            } else {
                assert(!same_key(s[ib], s[ia]));
            }
        }
    }
}

/// Putting `x` at `j`, after the entries it does not precede and before those that follow
/// it, keeps a sorted list sorted.
proof fn lemma_insert_sorted(pre: Seq<LocationView>, x: LocationView, j: int)
    requires
        sorted_all(pre),
        0 <= j <= pre.len(),
        forall|a: int| 0 <= a < j ==> !location_lt(x, #[trigger] pre[a]),
        forall|a: int| j <= a < pre.len() ==> location_lt(x, #[trigger] pre[a]),
    ensures
        sorted_all(pre.insert(j, x)),
{
    let after = pre.insert(j, x);
    assert forall|p: int, q: int| 0 <= p < q < after.len() implies location_le(#[trigger] after[p], #[trigger] after[q]) by {
        let pp = if p < j { p } else { p - 1 };
        let qq = if q < j { q } else { q - 1 };
        if p == j {
            assert(after[p] == x && after[q] == pre[qq]);
        } else if q == j {
            assert(after[p] == pre[pp] && after[q] == x);
            lemma_location_total(x, pre[pp]);
        } else {
            assert(after[p] == pre[pp] && after[q] == pre[qq]);
        }
    }
}

/// Orders rows by their definitions, keeping every row.
#[verifier::rlimit(100)]
#[verifier::spinoff_prover]
fn sort_rows(v: &mut Vec<DefinitionRow>)
    ensures
        final(v)@.to_multiset() == old(v)@.to_multiset(),
        final(v)@.len() == old(v)@.len(),
        distinct_keys(old(v)@) ==> distinct_keys(final(v)@),
        forall|a: int|
            0 <= a < final(v)@.len() - 1 ==> location_le(
                (#[trigger] final(v)@[a]).definition@,
                final(v)@[a + 1].definition@,
            ),
{
    let ghost orig = v@;
    let mut keys: Vec<Key> = Vec::new();
    let mut k: usize = 0;
    while k < v.len()
        invariant
            v@ == orig,
            k <= v@.len(),
            keys@.len() == k,
            forall|m: int| 0 <= m < k ==> key_view(#[trigger] keys@[m]) == v@[m].definition@,
        decreases v@.len() - k,
    {
        keys.push(key_of(&v[k].definition));
        k = k + 1;
    }
    if v.len() == 0 {
        return;
    }
    let ghost mut kv: Seq<LocationView> = keys@.map_values(|q: Key| key_view(q));
    let mut i: usize = 1;
    proof {
        assert(sorted_all(kv.subrange(0, 1)));
    }
    while i < v.len()
        invariant
            orig == old(v)@,
            1 <= i <= v@.len(),
            v@.len() == orig.len(),
            keys@.len() == v@.len(),
            kv.len() == v@.len(),
            forall|m: int| 0 <= m < v@.len() ==> key_view(#[trigger] keys@[m]) == v@[m].definition@,
            forall|m: int| 0 <= m < v@.len() ==> #[trigger] kv[m] == v@[m].definition@,
            v@.to_multiset() == orig.to_multiset(),
            distinct_keys(orig) ==> distinct_keys(v@),
            sorted_all(kv.subrange(0, i as int)),
        decreases v@.len() - i,
    {
        let ghost before = v@;
        let ghost kv0 = kv;
        let ghost pre = kv0.subrange(0, i as int);
        let x = v.remove(i);
        let kx = keys.remove(i);
        let ghost mid = v@;
        let mut lo: usize = 0;
        let mut hi: usize = i;
        while lo < hi
            invariant
                lo <= hi <= i,
                i <= mid.len(),
                i < before.len(),
                kv0.len() == before.len(),
                mid.len() == before.len() - 1,
                v@ == mid,
                mid == before.remove(i as int),
                pre == kv0.subrange(0, i as int),
                forall|m: int| 0 <= m < before.len() ==> #[trigger] kv0[m] == before[m].definition@,
                keys@.len() == v@.len(),
                forall|m: int| 0 <= m < v@.len() ==> key_view(#[trigger] keys@[m]) == v@[m].definition@,
                key_view(kx) == x.definition@,
                sorted_all(pre),
                forall|a: int| 0 <= a < lo ==> !location_lt(x.definition@, #[trigger] pre[a]),
                forall|a: int| hi <= a < i ==> location_lt(x.definition@, #[trigger] pre[a]),
            decreases hi - lo,
        {
            let mid_i = lo + (hi - lo) / 2;
            proof {
                assert(pre[mid_i as int] == kv0[mid_i as int]);
                assert(mid[mid_i as int] == before[mid_i as int]);
            }
            if key_lt(&kx, &keys[mid_i]) {
                proof {
                    assert forall|a: int| mid_i <= a < i implies location_lt(x.definition@, #[trigger] pre[a]) by {
                        if a > mid_i {
                            assert(location_le(pre[mid_i as int], pre[a]));
                            if pre[mid_i as int] != pre[a] {
                                lemma_location_transitive(x.definition@, pre[mid_i as int], pre[a]);
                            }
                        }
                    }
                }
                hi = mid_i;
            } else {
                proof {
                    assert forall|a: int| 0 <= a < mid_i + 1 implies !location_lt(x.definition@, #[trigger] pre[a]) by {
                        if a < mid_i && location_lt(x.definition@, pre[a]) {
                            assert(location_le(pre[a], pre[mid_i as int]));
                            if pre[a] != pre[mid_i as int] {
                                lemma_location_transitive(x.definition@, pre[a], pre[mid_i as int]);
                            }
                        }
                    }
                }
                lo = mid_i + 1;
            }
        }
        let j = lo;
        proof {
            assert(kv0[i as int] == x.definition@);
            lemma_insert_sorted(pre, x.definition@, j as int);
        }
        v.insert(j, x);
        keys.insert(j, kx);
        proof {
            lemma_move_row(before, i as int, j as int);
            kv = kv0.remove(i as int).insert(j as int, kv0[i as int]);
            assert(kv.subrange(0, i + 1) =~= pre.insert(j as int, x.definition@));
            assert forall|m: int| 0 <= m < v@.len() implies key_view(#[trigger] keys@[m]) == v@[m].definition@ by {
                if m < j {
                } else if m > j {
                }
            }
            assert forall|m: int| 0 <= m < v@.len() implies #[trigger] kv[m] == v@[m].definition@ by {
                if m < j {
                    assert(kv[m] == kv0[m] && v@[m] == before[m]);
                } else if m == j {
                } else if m <= i {
                    assert(kv[m] == kv0[m - 1] && v@[m] == before[m - 1]);
                } else {
                    assert(kv[m] == kv0[m] && v@[m] == before[m]);
                }
            }
        }
        i = i + 1;
    }
    proof {
        assert(kv.subrange(0, v@.len() as int) =~= kv);
        assert forall|a: int| 0 <= a < v@.len() - 1 implies location_le(
            (#[trigger] v@[a]).definition@,
            v@[a + 1].definition@,
        ) by {
            assert(kv[a] == v@[a].definition@);
            assert(kv[a + 1] == v@[a + 1].definition@);
        }
    }
}

/// Each row of a matching list holds the facts of its ecosystem.
pub proof fn lemma_row_facts(
    rows: Seq<DefinitionRow>,
    scan: ReferenceScan,
    knowns: Seq<Seq<LocationView>>,
    a: int,
)
    requires
        all_rows_match(rows, scan, knowns),
        0 <= a < rows.len(),
    ensures
        row_ok(rows[a], scan, knowns[ecosystem_rank(rows[a].ecosystem)]),
{
    reveal(all_rows_match);
}

/// The known definitions of each ecosystem are the scan's, each once.
#[verifier::rlimit(100)]
pub proof fn lemma_known_definitions(
    rows: Seq<DefinitionRow>,
    scan: ReferenceScan,
    knowns: Seq<Seq<LocationView>>,
    eco: Ecosystem,
)
    requires
        all_rows_match(rows, scan, knowns),
    ensures
        no_dup(knowns[ecosystem_rank(eco)]),
        forall|x: LocationView| #[trigger] knowns[ecosystem_rank(eco)].contains(x) <==> scan_defines(scan, eco, x),
{
    reveal(all_rows_match);
}

/// Reordering keeps each row's facts.
pub proof fn lemma_reorder_rows_ok(
    rows: Seq<DefinitionRow>,
    unsorted: Seq<DefinitionRow>,
    scan: ReferenceScan,
    knowns: Seq<Seq<LocationView>>,
)
    requires
        rows.to_multiset() == unsorted.to_multiset(),
        forall|a: int|
            0 <= a < unsorted.len() ==> row_ok(#[trigger] unsorted[a], scan, knowns[ecosystem_rank(unsorted[a].ecosystem)]),
    ensures
        forall|a: int|
            0 <= a < rows.len() ==> row_ok(#[trigger] rows[a], scan, knowns[ecosystem_rank(rows[a].ecosystem)]),
{
    assert forall|a: int|
        0 <= a < rows.len() implies row_ok(#[trigger] rows[a], scan, knowns[ecosystem_rank(rows[a].ecosystem)]) by {
        vstd::seq_lib::to_multiset_contains(rows, rows[a]);
        vstd::seq_lib::to_multiset_contains(unsorted, rows[a]);
        let b = choose|b: int| 0 <= b < unsorted.len() && unsorted[b] == rows[a];
        assert(row_ok(unsorted[b], scan, knowns[ecosystem_rank(unsorted[b].ecosystem)]));
    }
}

/// Reordering keeps a row for every edge.
pub proof fn lemma_reorder_rows_cover(
    rows: Seq<DefinitionRow>,
    unsorted: Seq<DefinitionRow>,
    scan: ReferenceScan,
)
    requires
        rows.to_multiset() == unsorted.to_multiset(),
        forall|m: int|
            0 <= m < scan.edges@.len() ==> exists|a: int|
                0 <= a < unsorted.len() && (#[trigger] unsorted[a]).ecosystem == (#[trigger] scan.edges@[m]).ecosystem
                    && unsorted[a].definition@ == scan.edges@[m].definition@,
    ensures
        forall|m: int|
            0 <= m < scan.edges@.len() ==> exists|a: int|
                0 <= a < rows.len() && (#[trigger] rows[a]).ecosystem == (#[trigger] scan.edges@[m]).ecosystem
                    && rows[a].definition@ == scan.edges@[m].definition@,
{
    assert forall|m: int|
        0 <= m < scan.edges@.len() implies exists|a: int|
            0 <= a < rows.len() && (#[trigger] rows[a]).ecosystem == (#[trigger] scan.edges@[m]).ecosystem
                && rows[a].definition@ == scan.edges@[m].definition@ by {
        let b = choose|b: int|
            0 <= b < unsorted.len() && (#[trigger] unsorted[b]).ecosystem == scan.edges@[m].ecosystem
                && unsorted[b].definition@ == scan.edges@[m].definition@;
        vstd::seq_lib::to_multiset_contains(unsorted, unsorted[b]);
        vstd::seq_lib::to_multiset_contains(rows, unsorted[b]);
        let a = choose|a: int| 0 <= a < rows.len() && rows[a] == unsorted[b];
        assert(rows[a].ecosystem == scan.edges@[m].ecosystem);
    }
}

/// The rows of a scan: one per definition that references resolve to, with its references
/// sorted, its recorded line and its name count, in the order of the definitions.
#[verifier::rlimit(100)]
pub fn definition_rows(scan: &ReferenceScan) -> (rows: Vec<DefinitionRow>)
    requires
        2 * (scan.definition_lines@.len() + scan.edges@.len()) + 4 < u32::MAX,
    ensures
        exists|knowns: Seq<Seq<LocationView>>| all_rows_match(rows@, *scan, knowns),
{
    let mut rows: Vec<DefinitionRow> = Vec::new();
    let ghost mut knowns: Seq<Seq<LocationView>> = Seq::empty();
    let mut i: usize = 0;
    while i < 8
        invariant
            i <= 8,
            2 * (scan.definition_lines@.len() + scan.edges@.len()) + 4 < u32::MAX,
            knowns.len() == i,
            forall|eco: Ecosystem|
                ecosystem_rank(eco) < i ==> no_dup(#[trigger] knowns[ecosystem_rank(eco)]) && forall|
                    x: LocationView,
                | #[trigger] knowns[ecosystem_rank(eco)].contains(x) <==> scan_defines(*scan, eco, x),
            forall|a: int|
                0 <= a < rows@.len() ==> ecosystem_rank((#[trigger] rows@[a]).ecosystem) < i
                    && row_ok(rows@[a], *scan, knowns[ecosystem_rank(rows@[a].ecosystem)]),
            distinct_keys(rows@),
            forall|m: int|
                0 <= m < scan.edges@.len() && ecosystem_rank((#[trigger] scan.edges@[m]).ecosystem) < i
                    ==> exists|a: int|
                    0 <= a < rows@.len() && (#[trigger] rows@[a]).ecosystem == scan.edges@[m].ecosystem
                        && rows@[a].definition@ == scan.edges@[m].definition@,
        decreases 8 - i,
    {
        let eco = ecosystem_at(i);
        let (mut part, known) = ecosystem_rows(eco, scan);
        let ghost before = rows@;
        let ghost part0 = part@;
        rows.append(&mut part);
        proof {
            let old_knowns = knowns;
            knowns = knowns.push(known@);
            assert(rows@ == before + part0);
            assert forall|e2: Ecosystem| ecosystem_rank(e2) < i + 1 implies no_dup(#[trigger] knowns[ecosystem_rank(e2)]) && forall|
                x: LocationView,
            | #[trigger] knowns[ecosystem_rank(e2)].contains(x) <==> scan_defines(*scan, e2, x) by {
                lemma_rank_injective(e2, eco);
                if ecosystem_rank(e2) < i {
                    assert(knowns[ecosystem_rank(e2)] == old_knowns[ecosystem_rank(e2)]);
                } else {
                    assert(knowns[ecosystem_rank(e2)] == known@);
                }
            }
            assert forall|a: int|
                0 <= a < rows@.len() implies ecosystem_rank((#[trigger] rows@[a]).ecosystem) < i + 1
                    && row_ok(rows@[a], *scan, knowns[ecosystem_rank(rows@[a].ecosystem)]) by {
                reveal(row_ok);
                if a < before.len() {
                    assert(rows@[a] == before[a]);
                    lemma_rank_injective(rows@[a].ecosystem, eco);
                    assert(knowns[ecosystem_rank(rows@[a].ecosystem)] == old_knowns[ecosystem_rank(rows@[a].ecosystem)]);
                } else {
                    assert(rows@[a] == part0[a - before.len()]);
                    assert(rows@[a].ecosystem == eco);
                    assert(knowns[ecosystem_rank(eco)] == known@);
                }
            }
            assert forall|a: int, b: int| 0 <= a < b < rows@.len() implies !same_key(rows@[a], rows@[b]) by {
                if b < before.len() {
                    assert(rows@[a] == before[a] && rows@[b] == before[b]);
                } else if a < before.len() {
                    assert(rows@[a] == before[a]);
                    assert(rows@[b] == part0[b - before.len()]);
                    assert(ecosystem_rank(before[a].ecosystem) < i);
                } else {
                    assert(rows@[a] == part0[a - before.len()]);
                    assert(rows@[b] == part0[b - before.len()]);
                }
            }
            assert forall|m: int|
                0 <= m < scan.edges@.len() && ecosystem_rank((#[trigger] scan.edges@[m]).ecosystem) < i + 1
                    implies exists|a: int|
                    0 <= a < rows@.len() && (#[trigger] rows@[a]).ecosystem == scan.edges@[m].ecosystem
                        && rows@[a].definition@ == scan.edges@[m].definition@ by {
                lemma_rank_injective(scan.edges@[m].ecosystem, eco);
                if ecosystem_rank(scan.edges@[m].ecosystem) < i {
                    let a = choose|a: int|
                        0 <= a < before.len() && (#[trigger] before[a]).ecosystem == scan.edges@[m].ecosystem
                            && before[a].definition@ == scan.edges@[m].definition@;
                    assert(rows@[a] == before[a]);
                } else {
                    let a = choose|a: int|
                        0 <= a < part0.len() && (#[trigger] part0[a]).definition@ == scan.edges@[m].definition@;
                    assert(rows@[before.len() + a] == part0[a]);
                }
            }
        }
        i = i + 1;
    }
    let ghost unsorted = rows@;
    sort_rows(&mut rows);
    proof {
        assert forall|eco: Ecosystem| ecosystem_rank(eco) < 8 by {
            lemma_rank_injective(eco, eco);
        }
    }
    proof {
        lemma_reorder_rows_ok(rows@, unsorted, *scan, knowns);
        assert forall|m: int|
            0 <= m < scan.edges@.len() implies exists|a: int|
                0 <= a < unsorted.len() && (#[trigger] unsorted[a]).ecosystem == (#[trigger] scan.edges@[m]).ecosystem
                    && unsorted[a].definition@ == scan.edges@[m].definition@ by {
            lemma_rank_injective(scan.edges@[m].ecosystem, scan.edges@[m].ecosystem);
        }
        lemma_reorder_rows_cover(rows@, unsorted, *scan);
        assert forall|eco: Ecosystem|
            no_dup(#[trigger] knowns[ecosystem_rank(eco)]) && forall|x: LocationView|
                #[trigger] knowns[ecosystem_rank(eco)].contains(x) <==> scan_defines(*scan, eco, x) by {
            lemma_rank_injective(eco, eco);
        }
        reveal(all_rows_match);
        assert(all_rows_match(rows@, *scan, knowns));
    }
    rows
}

/// The most definition lines and edges, together, that rows can be built from.
pub const HALF_LIMIT: usize = 0x3fff_fff0;

/// Groups edges by ecosystem and definition: one row per definition, with its usages sorted.
pub fn group_edges_by_ecosystem(edges: Vec<ReferenceEdge>) -> (rows: Vec<DefinitionRow>)
    requires
        2 * edges@.len() + 4 < u32::MAX,
    ensures
        exists|scan: ReferenceScan, knowns: Seq<Seq<LocationView>>|
            scan.edges@ == edges@ && scan.definition_lines@.len() == 0 && all_rows_match(
                rows@,
                scan,
                knowns,
            ),
{
    let scan = ReferenceScan { edges, definition_lines: Vec::new() };
    let rows = definition_rows(&scan);
    proof {
        let knowns = choose|knowns: Seq<Seq<LocationView>>| all_rows_match(rows@, scan, knowns);
        assert(scan.edges@ == edges@ && scan.definition_lines@.len() == 0 && all_rows_match(rows@, scan, knowns));
    }
    rows
}

/// `read` holds the inputs, each read successfully.
pub open spec fn wraps(read: Seq<Result<(String, String), CruxlinesError>>, inputs: Seq<(String, String)>) -> bool {
    read.len() == inputs.len() && forall|j: int|
        0 <= j < inputs.len() ==> (#[trigger] read[j]) is Ok && read[j]->Ok_0.0@ == inputs[j].0@
            && read[j]->Ok_0.1@ == inputs[j].1@
}

/// Scans `(path, source)` inputs and returns the rows of their definitions. A scan too large
/// to index is refused.
pub fn cruxlines_from_inputs(inputs: Vec<(String, String)>) -> (r: Result<
    Vec<DefinitionRow>,
    CruxlinesError,
>)
    ensures
        r is Err ==> r->Err_0 is TooManyLocations,
        r is Err ==> exists|
            read: Seq<Result<(String, String), CruxlinesError>>,
            files: Seq<FileResult>,
        |
            #![trigger wraps(read, inputs@), files_from(files, read)]
            wraps(read, inputs@) && files_from(files, read) && (total_locations(files)
                > MAX_LOCATIONS || exists|scan: ReferenceScan|
                #![trigger scan_matches(scan, files)]
                scan_matches(scan, files) && scan.definition_lines@.len() + scan.edges@.len()
                    > HALF_LIMIT),
        r is Ok ==> exists|
            read: Seq<Result<(String, String), CruxlinesError>>,
            scan: ReferenceScan,
            files: Seq<FileResult>,
            knowns: Seq<Seq<LocationView>>,
        |
            #![trigger wraps(read, inputs@), scan_matches(scan, files), all_rows_match(r->Ok_0@, scan, knowns)]
            wraps(read, inputs@) && scan_matches(scan, files) && files_from(files, read) && all_rows_match(
                r->Ok_0@,
                scan,
                knowns,
            ),
{
    let mut wrapped: Vec<Result<(String, String), CruxlinesError>> = Vec::new();
    let mut i: usize = 0;
    while i < inputs.len()
        invariant
            i <= inputs@.len(),
            wrapped@.len() == i,
            forall|j: int|
                0 <= j < i ==> (#[trigger] wrapped@[j]) is Ok && wrapped@[j]->Ok_0.0@ == inputs@[j].0@
                    && wrapped@[j]->Ok_0.1@ == inputs@[j].1@,
        decreases inputs@.len() - i,
    {
        wrapped.push(Ok((inputs[i].0.clone(), inputs[i].1.clone())));
        i = i + 1;
    }
    let ghost read = wrapped@;
    proof {
        assert(wraps(read, inputs@));
        assert forall|j: int| !first_error(read, j) by {
            if 0 <= j < read.len() {
                assert(read[j] is Ok);
            }
        }
    }
    let scan = match find_references(wrapped) {
        Ok(scan) => scan,
        Err(e) => {
            proof {
                let files = choose|files: Seq<FileResult>|
                    #![trigger files_from(files, read)]
                    files_from(files, read) && total_locations(files) > MAX_LOCATIONS;
                assert(wraps(read, inputs@) && files_from(files, read));
            }
            return Err(e);
        },
    };
    let lines = scan.definition_lines.len();
    if lines > HALF_LIMIT || scan.edges.len() > HALF_LIMIT - lines {
        proof {
            let files = choose|files: Seq<FileResult>|
                #![trigger scan_matches(scan, files)]
                scan_matches(scan, files) && files_from(files, read);
            assert(wraps(read, inputs@) && files_from(files, read));
            assert(scan_matches(scan, files) && scan.definition_lines@.len() + scan.edges@.len() > HALF_LIMIT);
        }
        return Err(CruxlinesError::TooManyLocations { count: scan.edges.len() });
    }
    let rows = definition_rows(&scan);
    proof {
        let files = choose|files: Seq<FileResult>|
            #![trigger scan_matches(scan, files)]
            scan_matches(scan, files) && files_from(files, read);
        let knowns = choose|knowns: Seq<Seq<LocationView>>| all_rows_match(rows@, scan, knowns);
        assert(wraps(read, inputs@) && scan_matches(scan, files) && files_from(files, read) && all_rows_match(rows@, scan, knowns));
    }
    let ghost rv = rows@;
    let r: Result<Vec<DefinitionRow>, CruxlinesError> = Ok(rows);
    assert(r->Ok_0@ == rv);
    r
}

} // verus!
