use vstd::prelude::*;

use crate::analysis::{all_rows_match, count_named, row_ok, scan_defines, usages_of, DefinitionRow};
use crate::find_references::{
    contributing, files_from, locations_of, reference_locations_of, result_for, file_result_matches,
    at_definition, eco_definition_lines, eco_definitions, file_ok, first_text, eco_references, resolves, same_position, scan_matches, views,
    FileResult, LocationView, ReferenceEdge, ReferenceScan,
};
use crate::languages::{spec_ecosystem_for_language, spec_language_for_path, Ecosystem, Language};
use crate::syntax::SyntaxNode;
use crate::find_references::CruxlinesError;
use crate::order::views_of;

verus! {

/// No edge of a scan leads from a location to itself: a definition site is never a use of
/// what it defines.
pub proof fn lemma_no_self_reference(scan: ReferenceScan, files: Seq<FileResult>)
    requires
        scan_matches(scan, files),
    ensures
        forall|m: int|
            0 <= m < scan.edges@.len() ==> (#[trigger] scan.edges@[m]).definition@
                != scan.edges@[m].usage@,
{
    reveal(scan_matches);
    assert forall|m: int| 0 <= m < scan.edges@.len() implies (#[trigger] scan.edges@[m]).definition@
        != scan.edges@[m].usage@ by {
        let e = scan.edges@[m];
        let defs = eco_definitions(e.ecosystem, files);
        assert(resolves(defs, e.definition@, e.usage@));
        if e.definition@ == e.usage@ {
            let k = choose|k: int| 0 <= k < defs.len() && defs[k] == e.definition@;
            assert(same_position(defs[k], e.usage@));
            assert(at_definition(defs, e.usage@));
        }
    }
}

/// A usage listed for `d` comes from an edge from `d`.
pub proof fn lemma_usage_from_edge(edges: Seq<ReferenceEdge>, eco: Ecosystem, d: LocationView, x: LocationView)
    requires
        usages_of(edges, eco, d).contains(x),
    ensures
        exists|m: int|
            0 <= m < edges.len() && (#[trigger] edges[m]).ecosystem == eco && edges[m].definition@ == d
                && edges[m].usage@ == x,
    decreases edges.len(),
{
    let prev = usages_of(edges.drop_last(), eco, d);
    let k = choose|k: int| 0 <= k < usages_of(edges, eco, d).len() && usages_of(edges, eco, d)[k] == x;
    if k < prev.len() {
        assert(prev[k] == x);
        lemma_usage_from_edge(edges.drop_last(), eco, d, x);
        let m = choose|m: int|
            0 <= m < edges.drop_last().len() && (#[trigger] edges.drop_last()[m]).ecosystem == eco
                && edges.drop_last()[m].definition@ == d && edges.drop_last()[m].usage@ == x;
        assert(edges[m] == edges.drop_last()[m]);
    } else {
        assert(edges[edges.len() - 1] == edges.last());
    }
}

/// A row lists no reference at its own definition.
pub proof fn lemma_row_no_self_reference(
    row: DefinitionRow,
    scan: ReferenceScan,
    files: Seq<FileResult>,
    known: Seq<LocationView>,
)
    requires
        scan_matches(scan, files),
        row_ok(row, scan, known),
    ensures
        forall|j: int| 0 <= j < row.references@.len() ==> (#[trigger] row.references@[j])@ != row.definition@,
{
    lemma_no_self_reference(scan, files);
    reveal(row_ok);
    assert forall|j: int| 0 <= j < row.references@.len() implies (#[trigger] row.references@[j])@
        != row.definition@ by {
        let refs = views_of(row.references@);
        let x = row.references@[j]@;
        assert(refs[j] == x);
        vstd::seq_lib::to_multiset_contains(refs, x);
        vstd::seq_lib::to_multiset_contains(usages_of(scan.edges@, row.ecosystem, row.definition@), x);
        lemma_usage_from_edge(scan.edges@, row.ecosystem, row.definition@, x);
    }
}

/// No row lists its own definition among its references.
pub proof fn lemma_rows_no_self_reference(
    rows: Seq<DefinitionRow>,
    scan: ReferenceScan,
    files: Seq<FileResult>,
    knowns: Seq<Seq<LocationView>>,
)
    requires
        scan_matches(scan, files),
        all_rows_match(rows, scan, knowns),
    ensures
        forall|a: int, j: int|
            0 <= a < rows.len() && 0 <= j < rows[a].references@.len() ==> (#[trigger] rows[a].references@[j])@
                != rows[a].definition@,
{
    assert forall|a: int, j: int|
        0 <= a < rows.len() && 0 <= j < rows[a].references@.len() implies (#[trigger] rows[a].references@[j])@
            != rows[a].definition@ by {
        crate::analysis::lemma_row_facts(rows, scan, knowns, a);
        lemma_row_no_self_reference(rows[a], scan, files, knowns[crate::find_references::ecosystem_rank(rows[a].ecosystem)]);
    }
}

/// A location of the ecosystem's definitions comes from a file of that ecosystem.
pub proof fn lemma_definition_source(eco: Ecosystem, files: Seq<FileResult>, x: LocationView)
    requires
        eco_definitions(eco, files).contains(x),
    ensures
        exists|i: int|
            0 <= i < files.len() && (#[trigger] files[i]).ecosystem == eco && views(files[i].definitions@).contains(x),
    decreases files.len(),
{
    let prev = eco_definitions(eco, files.drop_last());
    if prev.contains(x) {
        lemma_definition_source(eco, files.drop_last(), x);
        let i = choose|i: int|
            0 <= i < files.drop_last().len() && (#[trigger] files.drop_last()[i]).ecosystem == eco
                && views(files.drop_last()[i].definitions@).contains(x);
        assert(files[i] == files.drop_last()[i]);
    } else {
        let k = choose|k: int| 0 <= k < eco_definitions(eco, files).len() && eco_definitions(eco, files)[k] == x;
        assert(files[files.len() - 1] == files.last());
        if files.last().ecosystem == eco {
            assert(views(files.last().definitions@)[k - prev.len()] == x);
        }
    }
}

/// A location of the ecosystem's references comes from a file of that ecosystem.
pub proof fn lemma_reference_source(eco: Ecosystem, files: Seq<FileResult>, x: LocationView)
    requires
        eco_references(eco, files).contains(x),
    ensures
        exists|i: int|
            0 <= i < files.len() && (#[trigger] files[i]).ecosystem == eco && views(files[i].references@).contains(x),
    decreases files.len(),
{
    let prev = eco_references(eco, files.drop_last());
    if prev.contains(x) {
        lemma_reference_source(eco, files.drop_last(), x);
        let i = choose|i: int|
            0 <= i < files.drop_last().len() && (#[trigger] files.drop_last()[i]).ecosystem == eco
                && views(files.drop_last()[i].references@).contains(x);
        assert(files[i] == files.drop_last()[i]);
    } else {
        let k = choose|k: int| 0 <= k < eco_references(eco, files).len() && eco_references(eco, files)[k] == x;
        assert(files[files.len() - 1] == files.last());
        if files.last().ecosystem == eco {
            assert(views(files.last().references@)[k - prev.len()] == x);
        }
    }
}

/// No edge crosses ecosystems: both ends of an edge come from files of the edge's ecosystem.
pub proof fn lemma_ecosystem_isolation(scan: ReferenceScan, files: Seq<FileResult>)
    requires
        scan_matches(scan, files),
    ensures
        forall|m: int|
            0 <= m < scan.edges@.len() ==> {
                let e = #[trigger] scan.edges@[m];
                &&& exists|i: int|
                    0 <= i < files.len() && (#[trigger] files[i]).ecosystem == e.ecosystem && views(
                        files[i].definitions@,
                    ).contains(e.definition@)
                &&& exists|i: int|
                    0 <= i < files.len() && (#[trigger] files[i]).ecosystem == e.ecosystem && views(
                        files[i].references@,
                    ).contains(e.usage@)
            },
{
    reveal(scan_matches);
    assert forall|m: int| 0 <= m < scan.edges@.len() implies {
        let e = #[trigger] scan.edges@[m];
        &&& exists|i: int|
            0 <= i < files.len() && (#[trigger] files[i]).ecosystem == e.ecosystem && views(
                files[i].definitions@,
            ).contains(e.definition@)
        &&& exists|i: int|
            0 <= i < files.len() && (#[trigger] files[i]).ecosystem == e.ecosystem && views(
                files[i].references@,
            ).contains(e.usage@)
    } by {
        let e = scan.edges@[m];
        lemma_definition_source(e.ecosystem, files, e.definition@);
        lemma_reference_source(e.ecosystem, files, e.usage@);
    }
}

/// The line recorded at position `x` of an ecosystem's definitions is the line that one of
/// its files recorded for that definition.
pub proof fn lemma_line_source(eco: Ecosystem, files: Seq<FileResult>, x: int)
    requires
        forall|i: int| 0 <= i < files.len() ==> file_ok(#[trigger] files[i]),
        0 <= x < eco_definitions(eco, files).len(),
    ensures
        exists|i: int, k: int|
            0 <= i < files.len() && (#[trigger] files[i]).ecosystem == eco && 0 <= k
                < files[i].definitions@.len() && files[i].definitions@[k]@ == eco_definitions(eco, files)[x]
                && (#[trigger] files[i].definition_lines@[k])@ == eco_definition_lines(eco, files)[x],
    decreases files.len(),
{
    crate::find_references::lemma_eco_lines_len(eco, files);
    let prev = eco_definitions(eco, files.drop_last());
    assert(forall|i: int| 0 <= i < files.drop_last().len() ==> files.drop_last()[i] == files[i]);
    crate::find_references::lemma_eco_lines_len(eco, files.drop_last());
    if x < prev.len() {
        lemma_line_source(eco, files.drop_last(), x);
        let (i, k) = choose|i: int, k: int|
            0 <= i < files.drop_last().len() && (#[trigger] files.drop_last()[i]).ecosystem == eco && 0 <= k
                < files.drop_last()[i].definitions@.len() && files.drop_last()[i].definitions@[k]@
                == eco_definitions(eco, files.drop_last())[x]
                && (#[trigger] files.drop_last()[i].definition_lines@[k])@ == eco_definition_lines(eco, files.drop_last())[x];
        assert(files[i] == files.drop_last()[i]);
    } else {
        let last = files.last();
        assert(files[files.len() - 1] == last);
        assert(file_ok(last));
        let k = x - prev.len();
        assert(views(last.definitions@)[k] == last.definitions@[k]@);
        assert(last.definition_lines@.map_values(|t: String| t@)[k] == last.definition_lines@[k]@);
    }
}

/// Some file of ecosystem `eco` recorded the line `text` for definition `d`.
pub open spec fn recorded_in(files: Seq<FileResult>, eco: Ecosystem, d: LocationView, text: Seq<char>) -> bool {
    exists|i: int, k: int|
        0 <= i < files.len() && (#[trigger] files[i]).ecosystem == eco && 0 <= k
            < files[i].definitions@.len() && files[i].definitions@[k]@ == d
            && (#[trigger] files[i].definition_lines@[k])@ == text
}

/// The line kept for each definition of a scan is the line that a file recorded for it when
/// it was scanned.
pub proof fn lemma_definition_line_snapshot(scan: ReferenceScan, files: Seq<FileResult>)
    requires
        scan_matches(scan, files),
        forall|i: int| 0 <= i < files.len() ==> file_ok(#[trigger] files[i]),
    ensures
        forall|m: int|
            0 <= m < scan.definition_lines@.len() ==> recorded_in(
                files,
                (#[trigger] scan.definition_lines@[m]).ecosystem,
                scan.definition_lines@[m].definition@,
                scan.definition_lines@[m].text@,
            ),
{
    reveal(scan_matches);
    assert forall|m: int| 0 <= m < scan.definition_lines@.len() implies recorded_in(
        files,
        (#[trigger] scan.definition_lines@[m]).ecosystem,
        scan.definition_lines@[m].definition@,
        scan.definition_lines@[m].text@,
    ) by {
        let l = scan.definition_lines@[m];
        let defs = eco_definitions(l.ecosystem, files);
        let texts = eco_definition_lines(l.ecosystem, files);
        assert(first_text(defs, texts, l.definition@, l.text@));
        let x = choose|x: int|
            0 <= x < defs.len() && x < texts.len() && defs[x] == l.definition@ && texts[x] == l.text@ && forall|
                j: int,
            | 0 <= j < x ==> defs[j] != l.definition@;
        lemma_line_source(l.ecosystem, files, x);
    }
}

/// Definitions that share a name within an ecosystem share one divisor: the number of
/// distinct definitions of that name that the scan has in that ecosystem (at least 1). Rows of
/// other ecosystems do not count.
pub proof fn lemma_shared_name_count(
    rows: Seq<DefinitionRow>,
    scan: ReferenceScan,
    knowns: Seq<Seq<LocationView>>,
    a: int,
    b: int,
)
    requires
        all_rows_match(rows, scan, knowns),
        0 <= a < rows.len(),
        0 <= b < rows.len(),
        rows[a].ecosystem == rows[b].ecosystem,
        rows[a].definition.name@ == rows[b].definition.name@,
    ensures
        rows[a].name_count == rows[b].name_count,
        rows[a].name_count >= 1,
        ({
            let known = knowns[crate::find_references::ecosystem_rank(rows[a].ecosystem)];
            &&& crate::find_references::no_dup(known)
            &&& forall|x: LocationView| known.contains(x) <==> scan_defines(scan, rows[a].ecosystem, x)
            &&& rows[a].name_count == if count_named(known, rows[a].definition.name@) == 0 {
                1
            } else {
                count_named(known, rows[a].definition.name@)
            }
        }),
{
    crate::analysis::lemma_row_facts(rows, scan, knowns, a);
    crate::analysis::lemma_row_facts(rows, scan, knowns, b);
    crate::analysis::lemma_known_definitions(rows, scan, knowns, rows[a].ecosystem);
    reveal(row_ok);
}

/// Every location of one file carries the file's path.
pub proof fn lemma_locations_path(path: Seq<char>, nodes: Seq<SyntaxNode>, idx: Seq<usize>)
    ensures
        forall|k: int| 0 <= k < locations_of(path, nodes, idx).len() ==> (#[trigger] locations_of(path, nodes, idx)[k]).0 == path,
    decreases idx.len(),
{
    if idx.len() > 0 {
        lemma_locations_path(path, nodes, idx.drop_last());
        let prev = locations_of(path, nodes, idx.drop_last());
        assert forall|k: int| 0 <= k < locations_of(path, nodes, idx).len() implies (#[trigger] locations_of(path, nodes, idx)[k]).0 == path by {
            if k < prev.len() {
                assert(locations_of(path, nodes, idx)[k] == prev[k]);
            }
        }
    }
}

/// Every reference location of one file carries the file's path.
pub proof fn lemma_reference_locations_path(path: Seq<char>, lang: Language, nodes: Seq<SyntaxNode>, idx: Seq<usize>)
    ensures
        forall|k: int| 0 <= k < reference_locations_of(path, lang, nodes, idx).len() ==> (#[trigger] reference_locations_of(path, lang, nodes, idx)[k]).0 == path,
    decreases idx.len(),
{
    if idx.len() > 0 {
        lemma_reference_locations_path(path, lang, nodes, idx.drop_last());
        let prev = reference_locations_of(path, lang, nodes, idx.drop_last());
        assert forall|k: int| 0 <= k < reference_locations_of(path, lang, nodes, idx).len() implies (#[trigger] reference_locations_of(path, lang, nodes, idx)[k]).0 == path by {
            if k < prev.len() {
                assert(reference_locations_of(path, lang, nodes, idx)[k] == prev[k]);
            }
        }
    }
}

/// The contributing indices are inputs that contribute.
pub proof fn lemma_contributing(inputs: Seq<Result<(String, String), CruxlinesError>>, hi: int)
    requires
        hi <= inputs.len(),
    ensures
        forall|k: int| 0 <= k < contributing(inputs, hi).len() ==> 0 <= #[trigger] contributing(inputs, hi)[k] < hi
            && crate::find_references::contributes(inputs[contributing(inputs, hi)[k]]),
    decreases hi,
{
    if hi > 0 {
        lemma_contributing(inputs, hi - 1);
        let prev = contributing(inputs, hi - 1);
        assert forall|k: int| 0 <= k < contributing(inputs, hi).len() implies 0 <= #[trigger] contributing(inputs, hi)[k] < hi
            && crate::find_references::contributes(inputs[contributing(inputs, hi)[k]]) by {
            if k < prev.len() {
                assert(contributing(inputs, hi)[k] == prev[k]);
            }
        }
    }
}

/// The ecosystem that a path's extension selects.
pub open spec fn path_ecosystem(p: Seq<char>) -> Option<Ecosystem> {
    match spec_language_for_path(p) {
        Some(l) => Some(spec_ecosystem_for_language(l)),
        None => None,
    }
}

/// A file result holds only locations of its input's path, and has that path's ecosystem.
proof fn lemma_file_paths(f: FileResult, input: Result<(String, String), CruxlinesError>)
    requires
        result_for(f, input),
        crate::find_references::contributes(input),
    ensures
        path_ecosystem(input->Ok_0.0@) == Some(f.ecosystem),
        forall|x: LocationView| views(f.definitions@).contains(x) ==> x.0 == input->Ok_0.0@,
        forall|x: LocationView| views(f.references@).contains(x) ==> x.0 == input->Ok_0.0@,
{
    let path = input->Ok_0.0@;
    let lang = spec_language_for_path(path)->Some_0;
    let nodes = choose|nodes: Seq<SyntaxNode>|
        crate::syntax::well_formed(nodes) && crate::syntax::nodes_of(nodes, lang, input->Ok_0.1@)
            && file_result_matches(f, path, input->Ok_0.1@, lang, nodes);
    lemma_locations_path(path, nodes, crate::extract::definitions_upto(lang, nodes, nodes.len() as int));
    lemma_reference_locations_path(path, lang, nodes, crate::extract::references_upto(lang, nodes, nodes.len() as int));
    assert forall|x: LocationView| views(f.definitions@).contains(x) implies x.0 == path by {
        let k = choose|k: int| 0 <= k < views(f.definitions@).len() && views(f.definitions@)[k] == x;
    }
    assert forall|x: LocationView| views(f.references@).contains(x) implies x.0 == path by {
        let k = choose|k: int| 0 <= k < views(f.references@).len() && views(f.references@)[k] == x;
    }
}

/// No edge crosses ecosystems, stated over paths: the paths of both ends of every edge select,
/// by their extension, the edge's ecosystem.
pub proof fn lemma_edge_paths_share_ecosystem(
    scan: ReferenceScan,
    files: Seq<FileResult>,
    inputs: Seq<Result<(String, String), CruxlinesError>>,
)
    requires
        scan_matches(scan, files),
        files_from(files, inputs),
    ensures
        forall|m: int|
            0 <= m < scan.edges@.len() ==> path_ecosystem((#[trigger] scan.edges@[m]).definition.path@)
                == Some(scan.edges@[m].ecosystem) && path_ecosystem(scan.edges@[m].usage.path@)
                == Some(scan.edges@[m].ecosystem),
{
    lemma_ecosystem_isolation(scan, files);
    let idx = contributing(inputs, inputs.len() as int);
    lemma_contributing(inputs, inputs.len() as int);
    assert forall|m: int| 0 <= m < scan.edges@.len() implies path_ecosystem((#[trigger] scan.edges@[m]).definition.path@)
        == Some(scan.edges@[m].ecosystem) && path_ecosystem(scan.edges@[m].usage.path@)
        == Some(scan.edges@[m].ecosystem) by {
        let e = scan.edges@[m];
        let i = choose|i: int|
            0 <= i < files.len() && (#[trigger] files[i]).ecosystem == e.ecosystem && views(
                files[i].definitions@,
            ).contains(e.definition@);
        assert(result_for(files[i], inputs[idx[i]]));
        lemma_file_paths(files[i], inputs[idx[i]]);
        let i2 = choose|i2: int|
            0 <= i2 < files.len() && (#[trigger] files[i2]).ecosystem == e.ecosystem && views(
                files[i2].references@,
            ).contains(e.usage@);
        assert(result_for(files[i2], inputs[idx[i2]]));
        lemma_file_paths(files[i2], inputs[idx[i2]]);
    }
}

} // verus!
