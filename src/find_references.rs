use vstd::prelude::*;

use crate::intern::{distinct, intern, interned, lemma_intern_distinct, new_interner};
use crate::extract::{
    definition_nodes, definitions_upto, reference_name, reference_name_exec, reference_nodes,
    references_upto,
};
use crate::languages::{
    ecosystem_for_language, language_for_path, spec_ecosystem_for_language,
    spec_language_for_path, Ecosystem, Language,
};
use crate::syntax::{nodes_of, parses, syntax_nodes, well_formed, SyntaxNode};
use crate::text::{chars_of, is_space, is_space_char, string_of, trim_end, trimmed_len};

verus! {

/// A named position in a source file; `line` and `column` count from 1.
#[derive(Debug)]
pub struct Location {
    pub path: String,
    pub line: usize,
    pub column: usize,
    pub name: String,
}

/// A location as plain values: path, line, column and name.
pub type LocationView = (Seq<char>, usize, usize, Seq<char>);

impl View for Location {
    type V = LocationView;

    open spec fn view(&self) -> LocationView {
        (self.path@, self.line, self.column, self.name@)
    }
}

impl Location {
    /// A copy of this location.
    pub fn duplicate(&self) -> (r: Location)
        ensures
            r@ == self@,
    {
        Location {
            path: self.path.clone(),
            line: self.line,
            column: self.column,
            name: self.name.clone(),
        }
    }
}

/// A use of a name matched to one definition of that name in the same ecosystem.
#[derive(Debug)]
pub struct ReferenceEdge {
    pub definition: Location,
    pub usage: Location,
    pub ecosystem: Ecosystem,
}

/// What one file contributes: its ecosystem, top-level definitions, candidate references,
/// and the trimmed source line of each definition.
#[derive(Debug)]
pub struct FileResult {
    pub ecosystem: Ecosystem,
    pub definitions: Vec<Location>,
    pub references: Vec<Location>,
    pub definition_lines: Vec<String>,
}

// ---------------------------------------------------------------------------------------
// Source lines.
// ---------------------------------------------------------------------------------------

/// The positions of the newlines of `s` below `hi`.
pub open spec fn newlines_upto(s: Seq<char>, hi: int) -> Seq<usize>
    decreases hi,
{
    if hi <= 0 {
        seq![]
    } else {
        newlines_upto(s, hi - 1) + if s[hi - 1] == '\n' {
            seq![(hi - 1) as usize]
        } else {
            seq![]
        }
    }
}

pub proof fn lemma_newlines_upto(s: Seq<char>, hi: int)
    requires
        0 <= hi <= s.len(),
        s.len() <= usize::MAX,
    ensures
        forall|j: int| 0 <= j < newlines_upto(s, hi).len() ==> newlines_upto(s, hi)[j] < hi,
        forall|a: int, b: int|
            0 <= a < b < newlines_upto(s, hi).len() ==> newlines_upto(s, hi)[a] < newlines_upto(
                s,
                hi,
            )[b],
    decreases hi,
{
    if hi > 0 {
        lemma_newlines_upto(s, hi - 1);
        let prev = newlines_upto(s, hi - 1);
        let tail: Seq<usize> = if s[hi - 1] == '\n' {
            seq![(hi - 1) as usize]
        } else {
            seq![]
        };
        assert(newlines_upto(s, hi) == prev + tail);
        assert forall|j: int| 0 <= j < newlines_upto(s, hi).len() implies newlines_upto(s, hi)[j] < hi by {
            if j >= prev.len() {
                assert(newlines_upto(s, hi)[j] == tail[j - prev.len()]);
            } else {
                assert(newlines_upto(s, hi)[j] == prev[j]);
            }
        }
        assert forall|a: int, b: int|
            0 <= a < b < newlines_upto(s, hi).len() implies newlines_upto(s, hi)[a] < newlines_upto(s, hi)[b] by {
            if b >= prev.len() {
                assert(newlines_upto(s, hi)[b] == tail[b - prev.len()]);
                assert(newlines_upto(s, hi)[a] == prev[a]);
            } else {
                assert(newlines_upto(s, hi)[a] == prev[a]);
                assert(newlines_upto(s, hi)[b] == prev[b]);
            }
        }
    }
}

/// Line `k` of `s`, counting from 0: the text between the `k`-th newline and the next, or
/// empty when `s` has no such line.
pub open spec fn line_of(s: Seq<char>, k: int) -> Seq<char> {
    let nl = newlines_upto(s, s.len() as int);
    if 0 <= k <= nl.len() {
        let start = if k == 0 {
            0
        } else {
            nl[k - 1] + 1
        };
        let end = if k < nl.len() {
            nl[k] as int
        } else {
            s.len() as int
        };
        s.subrange(start, end)
    } else {
        seq![]
    }
}

/// The text recorded for a definition on 1-based line `line`: that line without trailing
/// white space.
pub open spec fn definition_line_text(s: Seq<char>, line: int) -> Seq<char> {
    trim_end(line_of(s, line - 1))
}

fn newline_positions(cs: &Vec<char>) -> (r: Vec<usize>)
    ensures
        r@ == newlines_upto(cs@, cs@.len() as int),
{
    let mut out: Vec<usize> = Vec::new();
    let mut i: usize = 0;
    while i < cs.len()
        invariant
            i <= cs@.len(),
            out@ == newlines_upto(cs@, i as int),
        decreases cs@.len() - i,
    {
        if cs[i] == '\n' {
            out.push(i);
        }
        i = i + 1;
    }
    out
}

/// The trimmed text of 1-based line `line` of the characters `cs`, whose newline
/// positions are `nl`.
fn line_text(cs: &Vec<char>, nl: &Vec<usize>, line: usize) -> (r: String)
    requires
        nl@ == newlines_upto(cs@, cs@.len() as int),
    ensures
        r@ == definition_line_text(cs@, line as int),
{
    let n = cs.len();
    proof {
        lemma_newlines_upto(cs@, n as int);
    }
    if line == 0 || line - 1 > nl.len() {
        return string_of(&[]);
    }
    let k = line - 1;
    proof {
        if k > 0 {
            assert(nl@[k - 1] < cs@.len());
        }
    }
    let start = if k == 0 {
        0
    } else {
        nl[k - 1] + 1
    };
    let end = if k < nl.len() {
        nl[k]
    } else {
        cs.len()
    };
    proof {
        if k > 0 && k < nl@.len() {
            assert(nl@[k - 1] < nl@[k as int]);
        }
    }
    let ghost whole = cs@.subrange(start as int, end as int);
    let mut e: usize = end;
    while e > start && is_space_char(cs[e - 1])
        invariant
            start <= e <= end <= cs@.len(),
            trimmed_len(whole) == trimmed_len(cs@.subrange(start as int, e as int)),
        decreases e,
    {
        let ghost t = cs@.subrange(start as int, e as int);
        assert(t.drop_last() =~= cs@.subrange(start as int, e - 1));
        e = e - 1;
    }
    proof {
        let t = cs@.subrange(start as int, e as int);
        assert(trimmed_len(t) == t.len());
        assert(trim_end(whole) =~= t);
    }
    let mut piece: Vec<char> = Vec::new();
    let mut j: usize = start;
    while j < e
        invariant
            start <= j <= e <= cs@.len(),
            piece@ =~= cs@.subrange(start as int, j as int),
        decreases e - j,
    {
        piece.push(cs[j]);
        j = j + 1;
    }
    string_of(piece.as_slice())
}

// ---------------------------------------------------------------------------------------
// One file.
// ---------------------------------------------------------------------------------------

/// The locations of the nodes `idx` that carry text, in order.
pub open spec fn locations_of(path: Seq<char>, nodes: Seq<SyntaxNode>, idx: Seq<usize>) -> Seq<
    LocationView,
>
    decreases idx.len(),
{
    if idx.len() == 0 {
        seq![]
    } else {
        let j = idx.last() as int;
        locations_of(path, nodes, idx.drop_last()) + if 0 <= j < nodes.len()
            && nodes[j].text is Some {
            seq![(path, nodes[j].line, nodes[j].column, nodes[j].text->Some_0@)]
        } else {
            seq![]
        }
    }
}

fn locations_exec(path: &str, nodes: &Vec<SyntaxNode>, idx: &Vec<usize>) -> (r: Vec<Location>)
    ensures
        r@.map_values(|l: Location| l@) == locations_of(path@, nodes@, idx@),
{
    let mut out: Vec<Location> = Vec::new();
    let mut i: usize = 0;
    while i < idx.len()
        invariant
            i <= idx@.len(),
            out@.map_values(|l: Location| l@) == locations_of(path@, nodes@, idx@.subrange(0, i as int)),
        decreases idx@.len() - i,
    {
        let j = idx[i];
        proof {
            assert(idx@.subrange(0, i + 1).drop_last() =~= idx@.subrange(0, i as int));
        }
        if j < nodes.len() {
            if let Some(t) = &nodes[j].text {
                let loc = Location {
                    path: path.to_string(),
                    line: nodes[j].line,
                    column: nodes[j].column,
                    name: t.clone(),
                };
                out.push(loc);
                proof {
                    assert(out@.map_values(|l: Location| l@) =~= locations_of(path@, nodes@, idx@.subrange(0, i as int)).push(loc@));
                }
            }
        }
        i = i + 1;
    }
    proof {
        assert(idx@.subrange(0, idx@.len() as int) =~= idx@);
    }
    out
}

/// The locations of the reference nodes `idx` whose name node carries text, in order: at the
/// reference node's position, with the text of its name node.
pub open spec fn reference_locations_of(
    path: Seq<char>,
    lang: Language,
    nodes: Seq<SyntaxNode>,
    idx: Seq<usize>,
) -> Seq<LocationView>
    decreases idx.len(),
{
    if idx.len() == 0 {
        seq![]
    } else {
        let j = idx.last() as int;
        let t = reference_name(lang, nodes, j);
        reference_locations_of(path, lang, nodes, idx.drop_last()) + if 0 <= j < nodes.len() && 0 <= t
            < nodes.len() && nodes[t].text is Some {
            seq![(path, nodes[j].line, nodes[j].column, nodes[t].text->Some_0@)]
        } else {
            seq![]
        }
    }
}

fn reference_locations_exec(path: &str, lang: Language, nodes: &Vec<SyntaxNode>, idx: &Vec<usize>) -> (r: Vec<Location>)
    requires
        well_formed(nodes@),
    ensures
        r@.map_values(|l: Location| l@) == reference_locations_of(path@, lang, nodes@, idx@),
{
    let mut out: Vec<Location> = Vec::new();
    let mut i: usize = 0;
    while i < idx.len()
        invariant
            well_formed(nodes@),
            i <= idx@.len(),
            out@.map_values(|l: Location| l@) == reference_locations_of(path@, lang, nodes@, idx@.subrange(0, i as int)),
        decreases idx@.len() - i,
    {
        let j = idx[i];
        proof {
            assert(idx@.subrange(0, i + 1).drop_last() =~= idx@.subrange(0, i as int));
        }
        if j < nodes.len() {
            let t = reference_name_exec(lang, nodes, j);
            if let Some(name) = &nodes[t].text {
                let loc = Location {
                    path: path.to_string(),
                    line: nodes[j].line,
                    column: nodes[j].column,
                    name: name.clone(),
                };
                out.push(loc);
                proof {
                    assert(out@.map_values(|l: Location| l@) =~= reference_locations_of(path@, lang, nodes@, idx@.subrange(0, i as int)).push(loc@));
                }
            }
        }
        i = i + 1;
    }
    proof {
        assert(idx@.subrange(0, idx@.len() as int) =~= idx@);
    }
    out
}

/// What a file parsed into `nodes` contributes, exactly.
pub open spec fn file_result_matches(
    r: FileResult,
    path: Seq<char>,
    source: Seq<char>,
    lang: Language,
    nodes: Seq<SyntaxNode>,
) -> bool {
    &&& r.ecosystem == spec_ecosystem_for_language(lang)
    &&& r.definitions@.map_values(|l: Location| l@) == locations_of(
        path,
        nodes,
        definitions_upto(lang, nodes, nodes.len() as int),
    )
    &&& r.references@.map_values(|l: Location| l@) == reference_locations_of(
        path,
        lang,
        nodes,
        references_upto(lang, nodes, nodes.len() as int),
    )
    &&& r.definition_lines@.len() == r.definitions@.len()
    &&& forall|k: int|
        0 <= k < r.definitions@.len() ==> #[trigger] r.definition_lines@[k]@
            == definition_line_text(source, r.definitions@[k].line as int)
}

/// Extracts the definitions, references and definition lines of one file from its nodes.
pub fn file_result(path: &str, source: &str, lang: Language, nodes: &Vec<SyntaxNode>) -> (r:
    FileResult)
    requires
        well_formed(nodes@),
    ensures
        file_result_matches(r, path@, source@, lang, nodes@),
{
    let defs = locations_exec(path, nodes, &definition_nodes(lang, nodes));
    let refs = reference_locations_exec(path, lang, nodes, &reference_nodes(lang, nodes));
    let cs = chars_of(source);
    let nl = newline_positions(&cs);
    let mut lines: Vec<String> = Vec::new();
    let mut k: usize = 0;
    while k < defs.len()
        invariant
            k <= defs@.len(),
            cs@ == source@,
            nl@ == newlines_upto(cs@, cs@.len() as int),
            lines@.len() == k,
            forall|m: int|
                0 <= m < k ==> #[trigger] lines@[m]@ == definition_line_text(
                    source@,
                    defs@[m].line as int,
                ),
        decreases defs@.len() - k,
    {
        lines.push(line_text(&cs, &nl, defs[k].line));
        k = k + 1;
    }
    FileResult {
        ecosystem: ecosystem_for_language(lang),
        definitions: defs,
        references: refs,
        definition_lines: lines,
    }
}

/// Parses and extracts one file. Files whose extension names no supported language, and
/// files that the parser gives no tree for, contribute nothing.
pub fn scan_file(path: &str, source: &str) -> (r: Option<FileResult>)
    ensures
        r is Some <==> (spec_language_for_path(path@) is Some && parses(
            spec_language_for_path(path@)->Some_0,
            source@,
        )),
        r matches Some(fr) ==> exists|nodes: Seq<SyntaxNode>|
            well_formed(nodes) && nodes_of(nodes, spec_language_for_path(path@)->Some_0, source@)
                && file_result_matches(
                fr,
                path@,
                source@,
                spec_language_for_path(path@)->Some_0,
                nodes,
            ),
{
    let lang = match language_for_path(path) {
        Some(l) => l,
        None => return None,
    };
    match syntax_nodes(lang, source) {
        Some(nodes) => Some(file_result(path, source, lang, &nodes)),
        None => None,
    }
}

// ---------------------------------------------------------------------------------------
// All files of one ecosystem.
// ---------------------------------------------------------------------------------------

/// The plain values of a list of locations.
pub open spec fn views(v: Seq<Location>) -> Seq<LocationView> {
    v.map_values(|l: Location| l@)
}

/// The definitions of the files in ecosystem `eco`, file after file.
pub open spec fn eco_definitions(eco: Ecosystem, files: Seq<FileResult>) -> Seq<LocationView>
    decreases files.len(),
{
    if files.len() == 0 {
        seq![]
    } else {
        eco_definitions(eco, files.drop_last()) + if files.last().ecosystem == eco {
            views(files.last().definitions@)
        } else {
            seq![]
        }
    }
}

/// The definition lines recorded with `eco_definitions`, in the same order.
pub open spec fn eco_definition_lines(eco: Ecosystem, files: Seq<FileResult>) -> Seq<Seq<char>>
    decreases files.len(),
{
    if files.len() == 0 {
        seq![]
    } else {
        eco_definition_lines(eco, files.drop_last()) + if files.last().ecosystem == eco {
            files.last().definition_lines@.map_values(|t: String| t@)
        } else {
            seq![]
        }
    }
}

/// The candidate references of the files in ecosystem `eco`, file after file.
pub open spec fn eco_references(eco: Ecosystem, files: Seq<FileResult>) -> Seq<LocationView>
    decreases files.len(),
{
    if files.len() == 0 {
        seq![]
    } else {
        eco_references(eco, files.drop_last()) + if files.last().ecosystem == eco {
            views(files.last().references@)
        } else {
            seq![]
        }
    }
}

/// No location occurs twice.
pub open spec fn no_dup(s: Seq<LocationView>) -> bool {
    forall|a: int, b: int| 0 <= a < b < s.len() ==> s[a] != s[b]
}

pub proof fn lemma_no_dup_push(s: Seq<LocationView>, x: LocationView)
    requires
        no_dup(s),
        !s.contains(x),
    ensures
        no_dup(s.push(x)),
{
    assert forall|a: int, b: int| 0 <= a < b < s.push(x).len() implies s.push(x)[a] != s.push(
        x,
    )[b] by {
        if b == s.len() {
            assert(s.push(x)[a] == s[a]);
            assert(s.contains(s[a]));
        }
    }
}

/// Two locations share path, line and column.
pub open spec fn same_position(a: LocationView, b: LocationView) -> bool {
    a.0 == b.0 && a.1 == b.1 && a.2 == b.2
}

/// Some definition in `defs` stands at the position of `u`.
pub open spec fn at_definition(defs: Seq<LocationView>, u: LocationView) -> bool {
    exists|k: int| 0 <= k < defs.len() && same_position(#[trigger] defs[k], u)
}

/// A reference `u` resolves to definition `d`: same name, and `u` is not itself a
/// definition site.
pub open spec fn resolves(defs: Seq<LocationView>, d: LocationView, u: LocationView) -> bool {
    defs.contains(d) && d.3 == u.3 && !at_definition(defs, u)
}

/// An edge as plain values.
pub open spec fn edge_view(e: ReferenceEdge) -> (LocationView, LocationView, Ecosystem) {
    (e.definition@, e.usage@, e.ecosystem)
}

/// Copies the definitions, with their lines, or the references, of the files in `eco`.
fn collect(eco: Ecosystem, files: &Vec<FileResult>, definitions: bool) -> (r: (
    Vec<Location>,
    Vec<String>,
))
    requires
        forall|i: int|
            0 <= i < files@.len() ==> #[trigger] files@[i].definition_lines@.len()
                == files@[i].definitions@.len(),
    ensures
        definitions ==> views(r.0@) == eco_definitions(eco, files@),
        definitions ==> r.1@.map_values(|t: String| t@) == eco_definition_lines(eco, files@),
        !definitions ==> views(r.0@) == eco_references(eco, files@),
{
    let mut locs: Vec<Location> = Vec::new();
    let mut texts: Vec<String> = Vec::new();
    let mut i: usize = 0;
    while i < files.len()
        invariant
            i <= files@.len(),
            forall|m: int|
                0 <= m < files@.len() ==> #[trigger] files@[m].definition_lines@.len()
                    == files@[m].definitions@.len(),
            definitions ==> views(locs@) == eco_definitions(eco, files@.subrange(0, i as int)),
            definitions ==> texts@.map_values(|t: String| t@) == eco_definition_lines(
                eco,
                files@.subrange(0, i as int),
            ),
            !definitions ==> views(locs@) == eco_references(eco, files@.subrange(0, i as int)),
        decreases files@.len() - i,
    {
        let f = &files[i];
        proof {
            assert(files@.subrange(0, i + 1).drop_last() =~= files@.subrange(0, i as int));
            assert(files@.subrange(0, i + 1).last() == files@[i as int]);
        }
        if f.ecosystem == eco {
            let src = if definitions {
                &f.definitions
            } else {
                &f.references
            };
            let ghost before = locs@;
            let ghost before_t = texts@;
            let mut j: usize = 0;
            while j < src.len()
                invariant
                    j <= src@.len(),
                    src@.len() == f.definition_lines@.len() || !definitions,
                    definitions ==> src@ == f.definitions@,
                    locs@.len() == before.len() + j,
                    views(locs@) == views(before) + views(src@.subrange(0, j as int)),
                    definitions ==> texts@.map_values(|t: String| t@) == before_t.map_values(
                        |t: String| t@,
                    ) + f.definition_lines@.subrange(0, j as int).map_values(|t: String| t@),
                decreases src@.len() - j,
            {
                let ghost old_locs = locs@;
                let ghost old_texts = texts@;
                let x = src[j].duplicate();
                locs.push(x);
                proof {
                    assert(views(src@.subrange(0, j + 1)) =~= views(src@.subrange(0, j as int)).push(x@));
                    assert(views(locs@) =~= views(old_locs).push(x@));
                }
                if definitions {
                    let t = f.definition_lines[j].clone();
                    texts.push(t);
                    proof {
                        assert(f.definition_lines@.subrange(0, j + 1).map_values(|t: String| t@)
                            =~= f.definition_lines@.subrange(0, j as int).map_values(|t: String| t@).push(t@));
                        assert(texts@.map_values(|t: String| t@) =~= old_texts.map_values(|t: String| t@).push(t@));
                    }
                }
                j = j + 1;
            }
            proof {
                assert(src@.subrange(0, j as int) =~= src@);
                if definitions {
                    assert(f.definition_lines@.subrange(0, j as int) =~= f.definition_lines@);
                }
            }
        }
        i = i + 1;
    }
    proof {
        assert(files@.subrange(0, files@.len() as int) =~= files@);
    }
    (locs, texts)
}

/// The distinct definitions of one ecosystem, with the line recorded at the first occurrence
/// of each, and for each interned name and path the indices of the definitions that carry it.
pub(crate) struct SymbolTable {
    pub(crate) defs: Vec<Location>,
    pub(crate) texts: Vec<String>,
    pub(crate) name_key: Vec<usize>,
    pub(crate) path_key: Vec<usize>,
    pub(crate) by_name: Vec<Vec<usize>>,
    pub(crate) at_path: Vec<Vec<usize>>,
}

/// The table's indices agree with the interned strings `keys`.
pub(crate) open spec fn table_ok(t: SymbolTable, keys: Seq<Seq<char>>) -> bool {
    &&& distinct(keys)
    &&& t.by_name@.len() == keys.len()
    &&& t.at_path@.len() == keys.len()
    &&& t.texts@.len() == t.defs@.len()
    &&& t.name_key@.len() == t.defs@.len()
    &&& t.path_key@.len() == t.defs@.len()
    &&& forall|k: int|
        0 <= k < t.defs@.len() ==> {
            &&& t.name_key@[k] < keys.len()
            &&& keys[t.name_key@[k] as int] == t.defs@[k].name@
            &&& t.path_key@[k] < keys.len()
            &&& keys[t.path_key@[k] as int] == t.defs@[k].path@
            &&& t.by_name@[t.name_key@[k] as int]@.contains(k as usize)
            &&& t.at_path@[t.path_key@[k] as int]@.contains(k as usize)
        }
    &&& forall|id: int, j: int|
        0 <= id < keys.len() && 0 <= j < t.by_name@[id]@.len() ==> {
            &&& #[trigger] t.by_name@[id]@[j] < t.defs@.len()
            &&& t.name_key@[t.by_name@[id]@[j] as int] == id
        }
    &&& forall|id: int, j1: int, j2: int|
        0 <= id < keys.len() && 0 <= j1 < j2 < t.by_name@[id]@.len() ==> #[trigger] t.by_name@[id]@[j1]
            != #[trigger] t.by_name@[id]@[j2]
    &&& forall|id: int, j: int|
        0 <= id < keys.len() && 0 <= j < t.at_path@[id]@.len() ==> {
            &&& #[trigger] t.at_path@[id]@[j] < t.defs@.len()
            &&& t.path_key@[t.at_path@[id]@[j] as int] == id
        }
}

/// Interns `s`, giving the table a slot for a new key.
fn intern_into(t: &mut SymbolTable, r: &mut lasso::Rodeo, s: &str) -> (k: usize)
    requires
        table_ok(*old(t), interned(*old(r))),
        interned(*old(r)).len() < u32::MAX,
    ensures
        table_ok(*final(t), interned(*final(r))),
        final(t).defs@ == old(t).defs@,
        final(t).texts@ == old(t).texts@,
        k < interned(*final(r)).len(),
        interned(*final(r))[k as int] == s@,
        interned(*final(r)).len() <= interned(*old(r)).len() + 1,
        interned(*final(r)).len() >= interned(*old(r)).len(),
        forall|i: int| 0 <= i < interned(*old(r)).len() ==> interned(*final(r))[i] == interned(*old(r))[i],
{
    let ghost before = interned(*r);
    let k = intern(r, s);
    proof {
        lemma_intern_distinct(before, interned(*r), s@);
    }
    if k == t.by_name.len() {
        t.by_name.push(Vec::new());
        t.at_path.push(Vec::new());
        proof {
            assert(!before.contains(s@));
        }
    }
    proof {
        assert(interned(*r).len() == t.by_name@.len());
        assert forall|id: int, j: int|
            0 <= id < interned(*r).len() && 0 <= j < t.by_name@[id]@.len() implies {
                &&& #[trigger] t.by_name@[id]@[j] < t.defs@.len()
                &&& t.name_key@[t.by_name@[id]@[j] as int] == id
            } by {
            assert(id < before.len());
        }
        assert forall|id: int, j: int|
            0 <= id < interned(*r).len() && 0 <= j < t.at_path@[id]@.len() implies {
                &&& #[trigger] t.at_path@[id]@[j] < t.defs@.len()
                &&& t.path_key@[t.at_path@[id]@[j] as int] == id
            } by {
            assert(id < before.len());
        }
    }
    k
}

/// `text` is the line recorded with the first occurrence of `loc` in `locs`.
pub open spec fn first_text(
    locs: Seq<LocationView>,
    texts: Seq<Seq<char>>,
    loc: LocationView,
    text: Seq<char>,
) -> bool {
    first_text_below(locs, texts, loc, text, locs.len() as int)
}

/// `first_text`, for an occurrence below index `hi`.
pub open spec fn first_text_below(
    locs: Seq<LocationView>,
    texts: Seq<Seq<char>>,
    loc: LocationView,
    text: Seq<char>,
    hi: int,
) -> bool {
    exists|i: int|
        0 <= i < hi && i < locs.len() && i < texts.len() && locs[i] == loc && texts[i] == text && forall|
            j: int,
        |
            0 <= j < i ==> locs[j] != loc
}

/// Adds one definition occurrence to the table, unless the table holds it already.
pub(crate) fn add_definition(t: &mut SymbolTable, r: &mut lasso::Rodeo, d: &Location, text: &String) -> (k:
    usize)
    requires
        table_ok(*old(t), interned(*old(r))),
        interned(*old(r)).len() + 2 < u32::MAX,
    ensures
        table_ok(*final(t), interned(*final(r))),
        interned(*final(r)).len() <= interned(*old(r)).len() + 2,
        k < final(t).defs@.len(),
        final(t).defs@[k as int]@ == d@,
        views(old(t).defs@).contains(d@) ==> views(final(t).defs@) == views(old(t).defs@)
            && final(t).texts@ == old(t).texts@,
        !views(old(t).defs@).contains(d@) ==> views(final(t).defs@) == views(old(t).defs@).push(
            d@,
        ) && final(t).texts@.map_values(|s: String| s@) == old(t).texts@.map_values(
            |s: String| s@,
        ).push(text@),
{
    let ghost defs0 = t.defs@;
    let ghost texts0 = t.texts@;
    let ghost len0 = interned(*r).len();
    let pid = intern_into(t, r, d.path.as_str());
    let nid = intern_into(t, r, d.name.as_str());
    let ghost keys = interned(*r);
    let n = t.by_name[nid].len();
    let mut j: usize = 0;
    while j < n
        invariant
            table_ok(*t, keys),
            keys == interned(*r),
            keys.len() <= len0 + 2,
            len0 == interned(*old(r)).len(),
            defs0 == old(t).defs@,
            texts0 == old(t).texts@,
            t.defs@ == defs0,
            t.texts@ == texts0,
            nid < keys.len(),
            pid < keys.len(),
            keys[nid as int] == d.name@,
            keys[pid as int] == d.path@,
            n == t.by_name@[nid as int]@.len(),
            j <= n,
            forall|jj: int|
                0 <= jj < j ==> !same_position(
                    #[trigger] t.defs@[t.by_name@[nid as int]@[jj] as int]@,
                    d@,
                ),
        decreases n - j,
    {
        let k = t.by_name[nid][j];
        if t.defs[k].line == d.line && t.defs[k].column == d.column && t.path_key[k] == pid {
            proof {
                assert(t.defs@[k as int]@ == d@);
                assert(views(t.defs@)[k as int] == d@);
            }
            return k;
        }
        proof {
            if same_position(t.defs@[k as int]@, d@) {
                assert(keys[t.path_key@[k as int] as int] == keys[pid as int]);
            }
        }
        j = j + 1;
    }
    let k = t.defs.len();
    proof {
        if views(t.defs@).contains(d@) {
            let k = choose|k: int| 0 <= k < views(t.defs@).len() && views(t.defs@)[k] == d@;
            assert(t.defs@[k]@ == d@);
            assert(keys[t.name_key@[k] as int] == keys[nid as int]);
            assert(t.name_key@[k] == nid);
            assert(t.by_name@[nid as int]@.contains(k as usize));
            let jj = choose|jj: int| 0 <= jj < n && t.by_name@[nid as int]@[jj] == k as usize;
            assert(!same_position(t.defs@[t.by_name@[nid as int]@[jj] as int]@, d@));
        }
    }
    let ghost old_defs = t.defs@;
    let ghost old_texts = t.texts@;
    let ghost old_by_name = t.by_name@;
    let ghost old_at_path = t.at_path@;
    t.defs.push(d.duplicate());
    t.texts.push(text.clone());
    t.name_key.push(nid);
    t.path_key.push(pid);
    t.by_name[nid].push(k);
    t.at_path[pid].push(k);
    proof {
        assert(views(t.defs@) =~= views(old_defs).push(d@));
        assert(t.texts@.map_values(|s: String| s@) =~= old_texts.map_values(|s: String| s@).push(
            text@,
        ));
        assert forall|m: int| 0 <= m < t.defs@.len() implies {
            &&& t.name_key@[m] < keys.len()
            &&& keys[t.name_key@[m] as int] == t.defs@[m].name@
            &&& t.path_key@[m] < keys.len()
            &&& keys[t.path_key@[m] as int] == t.defs@[m].path@
            &&& t.by_name@[t.name_key@[m] as int]@.contains(m as usize)
            &&& t.at_path@[t.path_key@[m] as int]@.contains(m as usize)
        } by {
            if m < k {
                assert(old_by_name[t.name_key@[m] as int]@.contains(m as usize));
                let a = choose|a: int| 0 <= a < old_by_name[t.name_key@[m] as int]@.len() && old_by_name[t.name_key@[m] as int]@[a] == m as usize;
                assert(t.by_name@[t.name_key@[m] as int]@[a] == m as usize);
                assert(old_at_path[t.path_key@[m] as int]@.contains(m as usize));
                let b = choose|b: int| 0 <= b < old_at_path[t.path_key@[m] as int]@.len() && old_at_path[t.path_key@[m] as int]@[b] == m as usize;
                assert(t.at_path@[t.path_key@[m] as int]@[b] == m as usize);
            } else {
                assert(t.by_name@[nid as int]@.last() == k);
                assert(t.at_path@[pid as int]@.last() == k);
            }
        }
        assert(t.defs@[k as int]@ == d@);
        assert forall|id: int, jj: int|
            0 <= id < keys.len() && 0 <= jj < t.by_name@[id]@.len() implies {
                &&& #[trigger] t.by_name@[id]@[jj] < t.defs@.len()
                &&& t.name_key@[t.by_name@[id]@[jj] as int] == id
            } by {
            if id == nid && jj == old_by_name[id]@.len() {
            } else {
                assert(t.by_name@[id]@[jj] == old_by_name[id]@[jj]);
            }
        }
        assert forall|id: int, jj: int|
            0 <= id < keys.len() && 0 <= jj < t.at_path@[id]@.len() implies {
                &&& #[trigger] t.at_path@[id]@[jj] < t.defs@.len()
                &&& t.path_key@[t.at_path@[id]@[jj] as int] == id
            } by {
            if id == pid && jj == old_at_path[id]@.len() {
            } else {
                assert(t.at_path@[id]@[jj] == old_at_path[id]@[jj]);
            }
        }
    }
    k
}

pub(crate) fn build_table(defs: &Vec<Location>, texts: &Vec<String>, r: &mut lasso::Rodeo) -> (t:
    SymbolTable)
    requires
        interned(*old(r)).len() == 0,
        defs@.len() == texts@.len(),
        2 * defs@.len() + 2 < u32::MAX,
    ensures
        table_ok(t, interned(*final(r))),
        interned(*final(r)).len() <= 2 * defs@.len(),
        no_dup(views(t.defs@)),
        forall|x: int| 0 <= x < defs@.len() ==> views(t.defs@).contains(#[trigger] defs@[x]@),
        forall|k: int|
            0 <= k < t.defs@.len() ==> first_text(
                views(defs@),
                texts@.map_values(|s: String| s@),
                #[trigger] t.defs@[k]@,
                t.texts@[k]@,
            ),
{
    let mut t = SymbolTable {
        defs: Vec::new(),
        texts: Vec::new(),
        name_key: Vec::new(),
        path_key: Vec::new(),
        by_name: Vec::new(),
        at_path: Vec::new(),
    };
    let ghost dv = views(defs@);
    let ghost tv = texts@.map_values(|s: String| s@);
    let mut x: usize = 0;
    while x < defs.len()
        invariant
            x <= defs@.len(),
            defs@.len() == texts@.len(),
            2 * defs@.len() + 2 < u32::MAX,
            dv == views(defs@),
            tv == texts@.map_values(|s: String| s@),
            table_ok(t, interned(*r)),
            no_dup(views(t.defs@)),
            interned(*r).len() <= 2 * x,
            forall|y: int| 0 <= y < x ==> views(t.defs@).contains(#[trigger] defs@[y]@),
            forall|k: int|
                0 <= k < t.defs@.len() ==> first_text_below(
                    dv,
                    tv,
                    #[trigger] t.defs@[k]@,
                    t.texts@[k]@,
                    x as int,
                ),
        decreases defs@.len() - x,
    {
        let ghost before = views(t.defs@);
        let ghost before_texts = t.texts@;
        let _k = add_definition(&mut t, r, &defs[x], &texts[x]);
        proof {
            if !before.contains(defs@[x as int]@) {
                lemma_no_dup_push(before, defs@[x as int]@);
            }
            assert(dv[x as int] == defs@[x as int]@);
            assert(tv[x as int] == texts@[x as int]@);
            if before.contains(defs@[x as int]@) {
                assert forall|k: int| 0 <= k < t.defs@.len() implies first_text_below(
                    dv,
                    tv,
                    #[trigger] t.defs@[k]@,
                    t.texts@[k]@,
                    x + 1,
                ) by {
                    assert(views(t.defs@)[k] == before[k]);
                    assert(first_text_below(dv, tv, t.defs@[k]@, t.texts@[k]@, x as int));
                }
            } else {
                assert forall|k: int| 0 <= k < t.defs@.len() implies first_text_below(
                    dv,
                    tv,
                    #[trigger] t.defs@[k]@,
                    t.texts@[k]@,
                    x + 1,
                ) by {
                    assert(views(t.defs@)[k] == t.defs@[k]@);
                    if k < before.len() {
                        assert(views(t.defs@)[k] == before[k]);
                        assert(t.texts@.map_values(|s: String| s@)[k] == before_texts.map_values(|s: String| s@)[k]);
                        assert(first_text_below(dv, tv, t.defs@[k]@, t.texts@[k]@, x as int));
                    } else {
                        assert(views(t.defs@) == before.push(defs@[x as int]@));
                        assert(views(t.defs@).len() == t.defs@.len());
                        assert(k == before.len());
                        assert(before_texts.len() == before.len());
                        assert(t.defs@[k]@ == defs@[x as int]@);
                        assert(t.texts@.map_values(|s: String| s@)[k] == t.texts@[k]@);
                        assert(t.texts@.map_values(|s: String| s@) == before_texts.map_values(|s: String| s@).push(texts@[x as int]@));
                        assert(t.texts@[k]@ == texts@[x as int]@);
                        assert forall|j: int| 0 <= j < x implies dv[j] != t.defs@[k]@ by {
                            assert(dv[j] == defs@[j]@);
                            assert(before.contains(defs@[j]@));
                        }
                    }
                }
            }
            assert forall|y: int| 0 <= y < x + 1 implies views(t.defs@).contains(
                #[trigger] defs@[y]@,
            ) by {
                if y < x {
                    assert(before.contains(defs@[y]@));
                    let k = choose|k: int| 0 <= k < before.len() && before[k] == defs@[y]@;
                    if !before.contains(defs@[x as int]@) {
                        assert(views(t.defs@)[k] == before[k]);
                    }
                } else if !before.contains(defs@[x as int]@) {
                    assert(views(t.defs@)[before.len() as int] == defs@[x as int]@);
                }
            }
        }
        x = x + 1;
    }
    t
}

/// Every edge is in ecosystem `eco`, uses a reference of `refs`, and resolves to one of
/// `defs`.
pub open spec fn edges_sound(
    edges: Seq<ReferenceEdge>,
    eco: Ecosystem,
    defs: Seq<LocationView>,
    refs: Seq<LocationView>,
) -> bool {
    forall|m: int|
        0 <= m < edges.len() ==> {
            &&& (#[trigger] edges[m]).ecosystem == eco
            &&& refs.contains(edges[m].usage@)
            &&& resolves(defs, edges[m].definition@, edges[m].usage@)
        }
}

/// Each reference among the first `hi` of `refs` has an edge to every definition it resolves to.
pub open spec fn edges_complete(
    edges: Seq<ReferenceEdge>,
    eco: Ecosystem,
    defs: Seq<LocationView>,
    refs: Seq<LocationView>,
    hi: int,
) -> bool {
    forall|i: int, d: LocationView|
        0 <= i < hi && i < refs.len() && #[trigger] resolves(defs, d, refs[i]) ==> exists|m: int|
            0 <= m < edges.len() && #[trigger] edge_view(edges[m]) == (d, refs[i], eco)
}

/// Each edge `m` uses the reference at index `src[m]`, below `hi`.
pub open spec fn tagged(edges: Seq<ReferenceEdge>, src: Seq<int>, rv: Seq<LocationView>, hi: int) -> bool {
    &&& src.len() == edges.len()
    &&& forall|m: int| 0 <= m < edges.len() ==> 0 <= #[trigger] src[m] < hi && edges[m].usage@ == rv[src[m]]
}

/// No two edges are the same.
pub open spec fn edges_distinct(edges: Seq<ReferenceEdge>) -> bool {
    forall|a: int, b: int| 0 <= a < b < edges.len() ==> edge_view(edges[a]) != edge_view(edges[b])
}

pub proof fn lemma_push_distinct(edges: Seq<ReferenceEdge>, e: ReferenceEdge)
    requires
        edges_distinct(edges),
        forall|q: int| 0 <= q < edges.len() ==> edge_view(edges[q]) != edge_view(e),
    ensures
        edges_distinct(edges.push(e)),
{
    assert forall|a: int, b: int| 0 <= a < b < edges.push(e).len() implies edge_view(edges.push(e)[a])
        != edge_view(edges.push(e)[b]) by {
        assert(edges.push(e)[a] == edges[a]);
        if b < edges.len() {
            assert(edges.push(e)[b] == edges[b]);
        }
    }
}

fn match_references(
    eco: Ecosystem,
    t: &mut SymbolTable,
    r: &mut lasso::Rodeo,
    refs: &Vec<Location>,
) -> (edges: Vec<ReferenceEdge>)
    requires
        table_ok(*old(t), interned(*old(r))),
        no_dup(views(old(t).defs@)),
        interned(*old(r)).len() + 2 * refs@.len() + 2 < u32::MAX,
    ensures
        no_dup(views(refs@)) ==> edges_distinct(edges@),
        final(t).defs@ == old(t).defs@,
        final(t).texts@ == old(t).texts@,
        edges_sound(edges@, eco, views(old(t).defs@), views(refs@)),
        edges_complete(edges@, eco, views(old(t).defs@), views(refs@), refs@.len() as int),
{
    let ghost dv = views(t.defs@);
    let ghost rv = views(refs@);
    let ghost len0 = interned(*r).len();
    let mut edges: Vec<ReferenceEdge> = Vec::new();
    let ghost mut src: Seq<int> = Seq::empty();
    let mut i: usize = 0;
    while i < refs.len()
        invariant
            i <= refs@.len(),
            dv == views(t.defs@),
            dv == views(old(t).defs@),
            t.defs@ == old(t).defs@,
            t.texts@ == old(t).texts@,
            rv == views(refs@),
            table_ok(*t, interned(*r)),
            interned(*r).len() <= len0 + 2 * i,
            len0 + 2 * refs@.len() + 2 < u32::MAX,
            edges_sound(edges@, eco, dv, rv),
            edges_complete(edges@, eco, dv, rv, i as int),
            no_dup(dv),
            tagged(edges@, src, rv, i as int),
            no_dup(rv) ==> edges_distinct(edges@),
        decreases refs@.len() - i,
    {
        let u = &refs[i];
        assert(rv[i as int] == u@);
        let pid = intern_into(t, r, u.path.as_str());
        let n = t.at_path[pid].len();
        let mut at_def = false;
        let mut j: usize = 0;
        while j < n
            invariant
                table_ok(*t, interned(*r)),
                dv == views(t.defs@),
                pid < interned(*r).len(),
                interned(*r)[pid as int] == u.path@,
                n == t.at_path@[pid as int]@.len(),
                j <= n,
                at_def ==> at_definition(dv, u@),
                !at_def ==> forall|jj: int|
                    0 <= jj < j ==> !same_position(
                        #[trigger] t.defs@[t.at_path@[pid as int]@[jj] as int]@,
                        u@,
                    ),
            decreases n - j,
        {
            let k = t.at_path[pid][j];
            if t.defs[k].line == u.line && t.defs[k].column == u.column {
                proof {
                    assert(interned(*r)[t.path_key@[k as int] as int] == u.path@);
                    assert(dv[k as int] == t.defs@[k as int]@);
                    assert(same_position(dv[k as int], u@));
                }
                at_def = true;
            }
            j = j + 1;
        }
        let ndefs = t.defs.len();
        proof {
            if !at_def && at_definition(dv, u@) {
                let k = choose|k: int| 0 <= k < dv.len() && same_position(#[trigger] dv[k], u@);
                assert(dv[k] == t.defs@[k]@);
                assert(interned(*r)[t.path_key@[k] as int] == interned(*r)[pid as int]);
                assert(t.path_key@[k] == pid);
                assert(t.at_path@[pid as int]@.contains(k as usize));
                let jj = choose|jj: int| 0 <= jj < n && t.at_path@[pid as int]@[jj] == k as usize;
                assert(!same_position(t.defs@[t.at_path@[pid as int]@[jj] as int]@, u@));
            }
        }
        if !at_def {
            let nid = intern_into(t, r, u.name.as_str());
            let m = t.by_name[nid].len();
            let ghost edges0 = edges@;
            let ghost src0 = src;
            let mut j: usize = 0;
            while j < m
                invariant
                    no_dup(dv),
                    tagged(edges0, src0, rv, i as int),
                    edges@.len() == edges0.len() + j,
                    src.len() == edges@.len(),
                    forall|q: int| 0 <= q < edges0.len() ==> edges@[q] == edges0[q] && src[q] == src0[q],
                    forall|q: int|
                        0 <= q < j ==> (#[trigger] edges@[edges0.len() + q]).definition@
                            == dv[t.by_name@[nid as int]@[q] as int] && edges@[edges0.len() + q].usage@
                            == u@ && src[edges0.len() + q] == i,
                    no_dup(rv) ==> edges_distinct(edges@),
                    table_ok(*t, interned(*r)),
                    dv == views(t.defs@),
                    rv == views(refs@),
                    i < refs@.len(),
                    rv[i as int] == u@,
                    !at_definition(dv, u@),
                    ndefs == t.defs@.len(),
                    nid < interned(*r).len(),
                    interned(*r)[nid as int] == u.name@,
                    m == t.by_name@[nid as int]@.len(),
                    j <= m,
                    edges_sound(edges@, eco, dv, rv),
                    edges_complete(edges@, eco, dv, rv, i as int),
                    forall|jj: int|
                        #![trigger t.by_name@[nid as int]@[jj]]
                        0 <= jj < j ==> exists|e: int|
                            0 <= e < edges@.len() && #[trigger] edge_view(edges@[e]) == (
                                dv[t.by_name@[nid as int]@[jj] as int],
                                u@,
                                eco,
                            ),
                decreases m - j,
            {
                let k = t.by_name[nid][j];
                let ghost before = edges@;
                let e = ReferenceEdge {
                    definition: t.defs[k].duplicate(),
                    usage: u.duplicate(),
                    ecosystem: eco,
                };
                proof {
                    assert(dv[k as int] == t.defs@[k as int]@);
                    assert(dv.contains(e.definition@));
                    assert(interned(*r)[t.name_key@[k as int] as int] == t.defs@[k as int].name@);
                    assert(rv.contains(u@));
                }
                proof {
                    if no_dup(rv) {
                        assert forall|q: int| 0 <= q < before.len() implies edge_view(before[q]) != edge_view(e) by {
                            if q < edges0.len() {
                                assert(before[q] == edges0[q]);
                                assert(before[q].usage@ == rv[src0[q]]);
                                assert(src0[q] < i);
                                assert(rv[src0[q]] != rv[i as int]);
                            } else {
                                let qq = q - edges0.len();
                                assert(before[edges0.len() + qq].definition@ == dv[t.by_name@[nid as int]@[qq] as int]);
                                assert(t.by_name@[nid as int]@[qq] != t.by_name@[nid as int]@[j as int]);
                                assert(t.by_name@[nid as int]@[qq] < dv.len());
                                assert(dv[t.by_name@[nid as int]@[qq] as int] != dv[k as int]);
                            }
                        }
                        lemma_push_distinct(before, e);
                    }
                    src = src.push(i as int);
                }
                edges.push(e);
                proof {
                    assert forall|q: int| 0 <= q < edges0.len() implies edges@[q] == edges0[q] && src[q] == src0[q] by {
                        assert(edges@[q] == before[q]);
                    }
                    assert forall|q: int|
                        0 <= q < j + 1 implies (#[trigger] edges@[edges0.len() + q]).definition@
                            == dv[t.by_name@[nid as int]@[q] as int] && edges@[edges0.len() + q].usage@
                            == u@ && src[edges0.len() + q] == i by {
                        if q < j {
                            assert(edges@[edges0.len() + q] == before[edges0.len() + q]);
                        }
                    }
                    assert forall|mm: int| 0 <= mm < edges@.len() implies {
                        &&& (#[trigger] edges@[mm]).ecosystem == eco
                        &&& rv.contains(edges@[mm].usage@)
                        &&& resolves(dv, edges@[mm].definition@, edges@[mm].usage@)
                    } by {
                        if mm < before.len() {
                            assert(edges@[mm] == before[mm]);
                        }
                    }
                    assert forall|ii: int, d: LocationView|
                        0 <= ii < i && ii < rv.len() && #[trigger] resolves(dv, d, rv[ii]) implies exists|
                            mm: int,
                        |
                            0 <= mm < edges@.len() && #[trigger] edge_view(edges@[mm]) == (
                                d,
                                rv[ii],
                                eco,
                            ) by {
                        let mm = choose|mm: int|
                            0 <= mm < before.len() && #[trigger] edge_view(before[mm]) == (
                                d,
                                rv[ii],
                                eco,
                            );
                        assert(edges@[mm] == before[mm]);
                    }
                    assert forall|jj: int|
                        #![trigger t.by_name@[nid as int]@[jj]]
                        0 <= jj < j + 1 implies exists|ee: int|
                        0 <= ee < edges@.len() && #[trigger] edge_view(edges@[ee]) == (
                            dv[t.by_name@[nid as int]@[jj] as int],
                            u@,
                            eco,
                        ) by {
                        if jj < j {
                            let ee = choose|ee: int|
                                0 <= ee < before.len() && #[trigger] edge_view(before[ee]) == (
                                    dv[t.by_name@[nid as int]@[jj] as int],
                                    u@,
                                    eco,
                                );
                            assert(edges@[ee] == before[ee]);
                        } else {
                            assert(edge_view(edges@[before.len() as int]) == (
                                dv[t.by_name@[nid as int]@[jj] as int],
                                u@,
                                eco,
                            ));
                        }
                    }
                }
                j = j + 1;
            }
            proof {
                assert forall|q: int| 0 <= q < edges@.len() implies 0 <= #[trigger] src[q] < i + 1 && edges@[q].usage@ == rv[src[q]] by {
                    if q < edges0.len() {
                        assert(edges@[q] == edges0[q] && src[q] == src0[q]);
                    } else {
                        let qq = q - edges0.len();
                        assert(edges@[edges0.len() + qq].usage@ == u@);
                    }
                }
                assert forall|ii: int, d: LocationView|
                    0 <= ii < i + 1 && ii < rv.len() && #[trigger] resolves(dv, d, rv[ii]) implies exists|
                        mm: int,
                    |
                        0 <= mm < edges@.len() && #[trigger] edge_view(edges@[mm]) == (
                            d,
                            rv[ii],
                            eco,
                        ) by {
                    if ii == i {
                        let k = choose|k: int| 0 <= k < dv.len() && dv[k] == d;
                        assert(dv[k] == t.defs@[k]@);
                        assert(interned(*r)[t.name_key@[k] as int] == interned(*r)[nid as int]);
                        assert(t.name_key@[k] == nid);
                        assert(t.by_name@[nid as int]@.contains(k as usize));
                        let jj = choose|jj: int|
                            0 <= jj < m && t.by_name@[nid as int]@[jj] == k as usize;
                        assert(dv[t.by_name@[nid as int]@[jj] as int] == d);
                    }
                }
            }
        }
        i = i + 1;
    }
    edges
}

// ---------------------------------------------------------------------------------------
// The whole scan.
// ---------------------------------------------------------------------------------------

/// The edges of a scan, and the definition line recorded for each definition.
#[derive(Debug)]
pub struct ReferenceScan {
    pub edges: Vec<ReferenceEdge>,
    pub definition_lines: Vec<DefinitionLine>,
}

/// The trimmed source line of a definition, as read during the scan.
#[derive(Debug)]
pub struct DefinitionLine {
    pub ecosystem: Ecosystem,
    pub definition: Location,
    pub text: String,
}

/// What gathering the inputs can fail on: reading the current directory, or a file.
#[derive(Debug)]
pub enum CliIoError {
    CurrentDir { message: String },
    ReadFile { path: String, message: String },
}

/// An input file that could not be read, or a scan too large to index.
#[derive(Debug)]
pub enum CruxlinesError {
    ReadFile { path: String, message: String },
    TooManyLocations { count: usize },
}

/// Two errors say the same.
pub open spec fn same_error(a: CruxlinesError, b: CruxlinesError) -> bool {
    match (a, b) {
        (
            CruxlinesError::ReadFile { path: path_a, message: message_a },
            CruxlinesError::ReadFile { path: path_b, message: message_b },
        ) => path_a@ == path_b@ && message_a@ == message_b@,
        (
            CruxlinesError::TooManyLocations { count: count_a },
            CruxlinesError::TooManyLocations { count: count_b },
        ) => count_a == count_b,
        _ => false,
    }
}

impl CruxlinesError {
    /// A copy of this error.
    pub fn duplicate(&self) -> (r: CruxlinesError)
        ensures
            same_error(r, *self),
    {
        match self {
            CruxlinesError::ReadFile { path, message } => CruxlinesError::ReadFile {
                path: path.clone(),
                message: message.clone(),
            },
            CruxlinesError::TooManyLocations { count } => CruxlinesError::TooManyLocations {
                count: *count,
            },
        }
    }
}

/// The most locations a scan can index: each may take two keys of the 32-bit interner.
pub const MAX_LOCATIONS: usize = 0x7fff_fff0;

/// A file result lists one recorded line per definition.
pub open spec fn file_ok(f: FileResult) -> bool {
    f.definition_lines@.len() == f.definitions@.len()
}

/// The number of locations that the files hold.
pub open spec fn total_locations(files: Seq<FileResult>) -> nat
    decreases files.len(),
{
    if files.len() == 0 {
        0
    } else {
        total_locations(files.drop_last()) + files.last().definitions@.len()
            + files.last().references@.len()
    }
}

pub proof fn lemma_eco_sizes(eco: Ecosystem, files: Seq<FileResult>)
    ensures
        eco_definitions(eco, files).len() + eco_references(eco, files).len() <= total_locations(
            files,
        ),
    decreases files.len(),
{
    if files.len() > 0 {
        lemma_eco_sizes(eco, files.drop_last());
    }
}

pub proof fn lemma_eco_lines_len(eco: Ecosystem, files: Seq<FileResult>)
    requires
        forall|i: int| 0 <= i < files.len() ==> file_ok(#[trigger] files[i]),
    ensures
        eco_definitions(eco, files).len() == eco_definition_lines(eco, files).len(),
    decreases files.len(),
{
    if files.len() > 0 {
        assert(file_ok(files[files.len() - 1]));
        lemma_eco_lines_len(eco, files.drop_last());
    }
}

/// Lists holding the same locations agree on which references resolve to what.
pub proof fn lemma_resolves_same_members(a: Seq<LocationView>, b: Seq<LocationView>)
    requires
        forall|x: LocationView| a.contains(x) <==> b.contains(x),
    ensures
        forall|d: LocationView, u: LocationView| resolves(a, d, u) <==> resolves(b, d, u),
{
    assert forall|d: LocationView, u: LocationView| resolves(a, d, u) <==> resolves(b, d, u) by {
        if at_definition(a, u) {
            let k = choose|k: int| 0 <= k < a.len() && same_position(#[trigger] a[k], u);
            assert(a.contains(a[k]));
            let k2 = choose|k2: int| 0 <= k2 < b.len() && b[k2] == a[k];
            assert(same_position(b[k2], u));
        }
        if at_definition(b, u) {
            let k = choose|k: int| 0 <= k < b.len() && same_position(#[trigger] b[k], u);
            assert(b.contains(b[k]));
            let k2 = choose|k2: int| 0 <= k2 < a.len() && a[k2] == b[k];
            assert(same_position(a[k2], u));
        }
    }
}

/// The ecosystems, in a fixed order.
pub open spec fn ecosystem_rank(e: Ecosystem) -> int {
    match e {
        Ecosystem::C => 0,
        Ecosystem::Dotnet => 1,
        Ecosystem::Go => 2,
        Ecosystem::Java => 3,
        Ecosystem::Python => 4,
        Ecosystem::JavaScript => 5,
        Ecosystem::Rust => 6,
        Ecosystem::Php => 7,
    }
}

pub proof fn lemma_rank_injective(a: Ecosystem, b: Ecosystem)
    ensures
        ecosystem_rank(a) == ecosystem_rank(b) ==> a == b,
        0 <= ecosystem_rank(a) < 8,
{
    match a {
        Ecosystem::C => {},
        Ecosystem::Dotnet => {},
        Ecosystem::Go => {},
        Ecosystem::Java => {},
        Ecosystem::Python => {},
        Ecosystem::JavaScript => {},
        Ecosystem::Rust => {},
        Ecosystem::Php => {},
    }
}

pub(crate) fn ecosystem_at(i: usize) -> (e: Ecosystem)
    requires
        i < 8,
    ensures
        ecosystem_rank(e) == i,
{
    match i {
        0 => Ecosystem::C,
        1 => Ecosystem::Dotnet,
        2 => Ecosystem::Go,
        3 => Ecosystem::Java,
        4 => Ecosystem::Python,
        5 => Ecosystem::JavaScript,
        6 => Ecosystem::Rust,
        _ => Ecosystem::Php,
    }
}

/// Some entry of `lines` is for location `loc`.
pub open spec fn has_line_for(lines: Seq<DefinitionLine>, eco: Ecosystem, loc: LocationView) -> bool {
    exists|m: int|
        0 <= m < lines.len() && (#[trigger] lines[m]).definition@ == loc && lines[m].ecosystem == eco
}

/// What a scan of `files` holds: every edge resolves a reference of its ecosystem to a
/// definition of that ecosystem; every such resolution has an edge; and every definition
/// has its line, as recorded at its first occurrence.
#[verifier::opaque]
pub open spec fn scan_matches(scan: ReferenceScan, files: Seq<FileResult>) -> bool {
    &&& forall|m: int|
        0 <= m < scan.edges@.len() ==> {
            let e = #[trigger] scan.edges@[m];
            &&& eco_references(e.ecosystem, files).contains(e.usage@)
            &&& resolves(eco_definitions(e.ecosystem, files), e.definition@, e.usage@)
        }
    &&& forall|eco: Ecosystem, u: LocationView, d: LocationView|
        eco_references(eco, files).contains(u) && #[trigger] resolves(
            eco_definitions(eco, files),
            d,
            u,
        ) ==> exists|m: int|
            0 <= m < scan.edges@.len() && #[trigger] edge_view(scan.edges@[m]) == (d, u, eco)
    &&& forall|m: int|
        0 <= m < scan.definition_lines@.len() ==> first_text(
            eco_definitions(scan.definition_lines@[m].ecosystem, files),
            eco_definition_lines(scan.definition_lines@[m].ecosystem, files),
                (#[trigger] scan.definition_lines@[m]).definition@,
                scan.definition_lines@[m].text@,
            )
    &&& forall|eco: Ecosystem, x: int|
        0 <= x < eco_definitions(eco, files).len() ==> #[trigger] has_line_for(
            scan.definition_lines@,
            eco,
            eco_definitions(eco, files)[x],
        )
}

/// Merges the results of all files into reference edges, ecosystem by ecosystem.
pub fn merge_file_results(files: &Vec<FileResult>) -> (scan: ReferenceScan)
    requires
        forall|i: int| 0 <= i < files@.len() ==> file_ok(#[trigger] files@[i]),
        2 * total_locations(files@) + 4 < u32::MAX,
    ensures
        scan_matches(scan, files@),
        (forall|eco: Ecosystem| no_dup(#[trigger] eco_references(eco, files@))) ==> edges_distinct(scan.edges@),
{
    let mut edges: Vec<ReferenceEdge> = Vec::new();
    let mut lines: Vec<DefinitionLine> = Vec::new();
    let mut i: usize = 0;
    while i < 8
        invariant
            i <= 8,
            forall|m: int| 0 <= m < files@.len() ==> file_ok(#[trigger] files@[m]),
            2 * total_locations(files@) + 4 < u32::MAX,
            (forall|e2: Ecosystem| no_dup(#[trigger] eco_references(e2, files@))) ==> edges_distinct(edges@),
            forall|m: int|
                0 <= m < edges@.len() ==> {
                    let e = #[trigger] edges@[m];
                    &&& ecosystem_rank(e.ecosystem) < i
                    &&& eco_references(e.ecosystem, files@).contains(e.usage@)
                    &&& resolves(eco_definitions(e.ecosystem, files@), e.definition@, e.usage@)
                },
            forall|eco: Ecosystem, u: LocationView, d: LocationView|
                ecosystem_rank(eco) < i && eco_references(eco, files@).contains(u)
                    && #[trigger] resolves(eco_definitions(eco, files@), d, u) ==> exists|m: int|
                    0 <= m < edges@.len() && #[trigger] edge_view(edges@[m]) == (d, u, eco),
            forall|m: int|
                0 <= m < lines@.len() ==> first_text(
                        eco_definitions(lines@[m].ecosystem, files@),
                        eco_definition_lines(lines@[m].ecosystem, files@),
                        (#[trigger] lines@[m]).definition@,
                        lines@[m].text@,
                    ),
            forall|eco: Ecosystem, x: int|
                ecosystem_rank(eco) < i && 0 <= x < eco_definitions(eco, files@).len()
                    ==> #[trigger] has_line_for(lines@, eco, eco_definitions(eco, files@)[x]),
        decreases 8 - i,
    {
        let eco = ecosystem_at(i);
        let (defs, texts) = collect(eco, files, true);
        let (refs, _unused) = collect(eco, files, false);
        let ghost dv = eco_definitions(eco, files@);
        let ghost rv = eco_references(eco, files@);
        let ghost tv = eco_definition_lines(eco, files@);
        proof {
            lemma_eco_sizes(eco, files@);
            lemma_eco_lines_len(eco, files@);
            assert(views(defs@).len() == defs@.len());
            assert(texts@.map_values(|s: String| s@).len() == texts@.len());
            assert(views(refs@).len() == refs@.len());
        }
        let mut r = new_interner();
        let mut t = build_table(&defs, &texts, &mut r);
        let ghost tdefs = views(t.defs@);
        proof {
            assert forall|x: LocationView| tdefs.contains(x) <==> dv.contains(x) by {
                if tdefs.contains(x) {
                    let k = choose|k: int| 0 <= k < tdefs.len() && tdefs[k] == x;
                    assert(t.defs@[k]@ == x);
                    assert(first_text(views(defs@), texts@.map_values(|s: String| s@), t.defs@[k]@, t.texts@[k]@));
                }
                if dv.contains(x) {
                    let y = choose|y: int| 0 <= y < dv.len() && dv[y] == x;
                    assert(views(defs@)[y] == defs@[y]@);
                    assert(tdefs.contains(defs@[y]@));
                }
            }
            lemma_resolves_same_members(tdefs, dv);
        }
        let mut found = match_references(eco, &mut t, &mut r, &refs);
        let ghost before = edges@;
        let ghost found0 = found@;
        edges.append(&mut found);
        proof {
            assert(edges@ == before + found0);
            if forall|e2: Ecosystem| no_dup(#[trigger] eco_references(e2, files@)) {
                assert(no_dup(eco_references(eco, files@)));
                assert(edges_distinct(found0));
                assert forall|a: int, b: int| 0 <= a < b < edges@.len() implies edge_view(edges@[a]) != edge_view(edges@[b]) by {
                    if b < before.len() {
                        assert(edges@[a] == before[a] && edges@[b] == before[b]);
                    } else if a >= before.len() {
                        assert(edges@[a] == found0[a - before.len()] && edges@[b] == found0[b - before.len()]);
                    } else {
                        assert(edges@[a] == before[a]);
                        assert(edges@[b] == found0[b - before.len()]);
                        assert(ecosystem_rank(before[a].ecosystem) < i);
                        assert(found0[b - before.len()].ecosystem == eco);
                    }
                }
            }
            assert forall|m: int| 0 <= m < edges@.len() implies {
                let e = #[trigger] edges@[m];
                &&& ecosystem_rank(e.ecosystem) < i + 1
                &&& eco_references(e.ecosystem, files@).contains(e.usage@)
                &&& resolves(eco_definitions(e.ecosystem, files@), e.definition@, e.usage@)
            } by {
                if m < before.len() {
                    assert(edges@[m] == before[m]);
                } else {
                    assert(edges@[m] == found0[m - before.len()]);
                    assert(found0[m - before.len()].ecosystem == eco);
                }
            }
            assert forall|e2: Ecosystem, u: LocationView, d: LocationView|
                ecosystem_rank(e2) < i + 1 && eco_references(e2, files@).contains(u)
                    && #[trigger] resolves(eco_definitions(e2, files@), d, u) implies exists|m: int|
                    0 <= m < edges@.len() && #[trigger] edge_view(edges@[m]) == (d, u, e2) by {
                if ecosystem_rank(e2) < i {
                    let m = choose|m: int|
                        0 <= m < before.len() && #[trigger] edge_view(before[m]) == (d, u, e2);
                    assert(edges@[m] == before[m]);
                } else {
                    lemma_rank_injective(e2, eco);
                    assert(e2 == eco);
                    let idx = choose|idx: int| 0 <= idx < rv.len() && rv[idx] == u;
                    assert(resolves(tdefs, d, views(refs@)[idx]));
                    let m = choose|m: int|
                        0 <= m < found0.len() && #[trigger] edge_view(found0[m]) == (
                            d,
                            views(refs@)[idx],
                            eco,
                        );
                    assert(edges@[before.len() + m] == found0[m]);
                }
            }
        }
        let mut k: usize = 0;
        let ghost lines0 = lines@;
        while k < t.defs.len()
            invariant
                k <= t.defs@.len(),
                t.texts@.len() == t.defs@.len(),
                tdefs == views(t.defs@),
                lines@.len() == lines0.len() + k,
                forall|m: int| 0 <= m < lines0.len() ==> lines@[m] == lines0[m],
                forall|m: int|
                    0 <= m < k ==> (#[trigger] lines@[lines0.len() + m]).definition@ == t.defs@[m]@
                        && lines@[lines0.len() + m].text@ == t.texts@[m]@
                        && lines@[lines0.len() + m].ecosystem == eco,
            decreases t.defs@.len() - k,
        {
            lines.push(
                DefinitionLine {
                    ecosystem: eco,
                    definition: t.defs[k].duplicate(),
                    text: t.texts[k].clone(),
                },
            );
            k = k + 1;
        }
        proof {
            assert forall|m: int| 0 <= m < lines@.len() implies first_text(
                        eco_definitions(lines@[m].ecosystem, files@),
                        eco_definition_lines(lines@[m].ecosystem, files@),
                    (#[trigger] lines@[m]).definition@,
                    lines@[m].text@,
                ) by {
                if m < lines0.len() {
                    assert(lines@[m] == lines0[m]);
                } else {
                    let q = m - lines0.len();
                    assert(lines@[lines0.len() + q].definition@ == t.defs@[q]@);
                    assert(first_text(views(defs@), texts@.map_values(|s: String| s@), t.defs@[q]@, t.texts@[q]@));
                    assert(first_text(dv, tv, lines@[m].definition@, lines@[m].text@));
                }
            }
            assert forall|e2: Ecosystem, x: int|
                ecosystem_rank(e2) < i + 1 && 0 <= x < eco_definitions(e2, files@).len() implies #[trigger] has_line_for(
                    lines@,
                    e2,
                    eco_definitions(e2, files@)[x],
                ) by {
                if ecosystem_rank(e2) < i {
                    assert(has_line_for(lines0, e2, eco_definitions(e2, files@)[x]));
                    let m = choose|m: int|
                        0 <= m < lines0.len() && (#[trigger] lines0[m]).definition@ == eco_definitions(e2, files@)[x] && lines0[m].ecosystem == e2;
                    assert(lines@[m] == lines0[m]);
                    assert(lines@[m].definition@ == eco_definitions(e2, files@)[x]);
                } else {
                    lemma_rank_injective(e2, eco);
                    assert(e2 == eco);
                    assert(views(defs@) == dv);
                    assert(views(defs@)[x] == defs@[x]@);
                    assert(tdefs.contains(defs@[x]@));
                    let q = choose|q: int| 0 <= q < tdefs.len() && tdefs[q] == defs@[x]@;
                    assert(tdefs[q] == t.defs@[q]@);
                    assert(lines@[lines0.len() + q].definition@ == t.defs@[q]@);
                    assert(lines@[lines0.len() + q].definition@ == eco_definitions(e2, files@)[x]);
                }
            }
        }
        i = i + 1;
    }
    let ghost edges_view = edges@;
    let ghost lines_view = lines@;
    let scan = ReferenceScan { edges, definition_lines: lines };
    proof {
        assert(scan.edges@ == edges_view);
        reveal(scan_matches);
        assert(scan.edges@ == edges_view);
        assert(scan.definition_lines@ == lines_view);
        assert forall|m: int|
            0 <= m < scan.definition_lines@.len() implies first_text(
                eco_definitions(scan.definition_lines@[m].ecosystem, files@),
                eco_definition_lines(scan.definition_lines@[m].ecosystem, files@),
                (#[trigger] scan.definition_lines@[m]).definition@,
                scan.definition_lines@[m].text@,
            ) by {
            assert(lines_view[m] == scan.definition_lines@[m]);
        }
        assert forall|eco: Ecosystem, u: LocationView, d: LocationView|
            eco_references(eco, files@).contains(u) && #[trigger] resolves(
                eco_definitions(eco, files@),
                d,
                u,
            ) implies exists|m: int|
                0 <= m < scan.edges@.len() && #[trigger] edge_view(scan.edges@[m]) == (d, u, eco) by {
            lemma_rank_injective(eco, eco);
            let m = choose|m: int|
                0 <= m < edges_view.len() && #[trigger] edge_view(edges_view[m]) == (d, u, eco);
            assert(edge_view(scan.edges@[m]) == (d, u, eco));
        }
        assert forall|eco: Ecosystem, x: int|
            0 <= x < eco_definitions(eco, files@).len() implies #[trigger] has_line_for(
                scan.definition_lines@,
                eco,
                eco_definitions(eco, files@)[x],
            ) by {
            lemma_rank_injective(eco, eco);
            assert(has_line_for(lines_view, eco, eco_definitions(eco, files@)[x]));
        }
    }
    scan
}

/// The input at `i` is the first that failed to be read.
pub open spec fn first_error(inputs: Seq<Result<(String, String), CruxlinesError>>, i: int) -> bool {
    0 <= i < inputs.len() && inputs[i] is Err && forall|j: int| 0 <= j < i ==> inputs[j] is Ok
}

/// The input was read, names a supported language, and parses.
pub open spec fn contributes(input: Result<(String, String), CruxlinesError>) -> bool {
    input is Ok && spec_language_for_path(input->Ok_0.0@) is Some && parses(
        spec_language_for_path(input->Ok_0.0@)->Some_0,
        input->Ok_0.1@,
    )
}

/// The indices, below `hi`, of the inputs that contribute a file.
pub open spec fn contributing(inputs: Seq<Result<(String, String), CruxlinesError>>, hi: int) -> Seq<int>
    decreases hi,
{
    if hi <= 0 {
        seq![]
    } else {
        contributing(inputs, hi - 1) + if contributes(inputs[hi - 1]) {
            seq![hi - 1]
        } else {
            seq![]
        }
    }
}

/// `f` is what scanning the input gave.
pub open spec fn result_for(f: FileResult, input: Result<(String, String), CruxlinesError>) -> bool {
    exists|nodes: Seq<SyntaxNode>|
        well_formed(nodes) && nodes_of(nodes, spec_language_for_path(input->Ok_0.0@)->Some_0, input->Ok_0.1@)
            && file_result_matches(
            f,
            input->Ok_0.0@,
            input->Ok_0.1@,
            spec_language_for_path(input->Ok_0.0@)->Some_0,
            nodes,
        )
}

/// The files are the results of the contributing inputs, in input order.
pub open spec fn files_from(files: Seq<FileResult>, inputs: Seq<Result<(String, String), CruxlinesError>>) -> bool {
    let idx = contributing(inputs, inputs.len() as int);
    &&& files.len() == idx.len()
    &&& forall|k: int| 0 <= k < files.len() ==> result_for(#[trigger] files[k], inputs[idx[k]])
}

/// Scans `(path, source)` inputs and matches references to definitions. The first input
/// that could not be read is returned as the error; otherwise a scan with more than
/// `MAX_LOCATIONS` locations is refused.
pub fn find_references(inputs: Vec<Result<(String, String), CruxlinesError>>) -> (r: Result<
    ReferenceScan,
    CruxlinesError,
>)
    ensures
        forall|i: int|
            first_error(inputs@, i) ==> r is Err && same_error(r->Err_0, inputs@[i]->Err_0),
        (forall|i: int| !first_error(inputs@, i)) ==> (r is Ok || r->Err_0 is TooManyLocations),
        r is Ok ==> exists|files: Seq<FileResult>|
            #![trigger scan_matches(r->Ok_0, files)]
            scan_matches(r->Ok_0, files) && files_from(files, inputs@) && ((forall|eco: Ecosystem|
                no_dup(#[trigger] eco_references(eco, files))) ==> edges_distinct(r->Ok_0.edges@)),
        (forall|i: int| !first_error(inputs@, i)) && r is Err ==> exists|files: Seq<FileResult>|
            #![trigger files_from(files, inputs@)]
            files_from(files, inputs@) && total_locations(files) > MAX_LOCATIONS,
{
    let mut files: Vec<FileResult> = Vec::new();
    let mut total: usize = 0;
    let mut too_many = false;
    let ghost mut all: Seq<FileResult> = Seq::empty();
    let mut i: usize = 0;
    while i < inputs.len()
        invariant
            i <= inputs@.len(),
            forall|j: int| 0 <= j < i ==> inputs@[j] is Ok,
            forall|k: int| 0 <= k < all.len() ==> file_ok(#[trigger] all[k]),
            all.len() == contributing(inputs@, i as int).len(),
            forall|k: int|
                0 <= k < all.len() ==> result_for(#[trigger] all[k], inputs@[contributing(inputs@, i as int)[k]]),
            !too_many ==> files@ == all,
            !too_many ==> total == total_locations(files@),
            total <= MAX_LOCATIONS,
            too_many ==> total_locations(all) > MAX_LOCATIONS,
        decreases inputs@.len() - i,
    {
        match &inputs[i] {
            Err(e) => {
                proof {
                    assert(first_error(inputs@, i as int));
                    assert forall|j: int| first_error(inputs@, j) implies j == i by {
                        if j < i {
                        } else if j > i {
                            assert(inputs@[i as int] is Ok);
                        }
                    }
                }
                return Err(e.duplicate());
            },
            Ok((path, source)) => {
                let ghost all0 = all;
                let ghost idx = contributing(inputs@, i as int);
                proof {
                    assert(inputs@[i as int]->Ok_0.0@ == path@);
                    assert(inputs@[i as int]->Ok_0.1@ == source@);
                }
                match scan_file(path.as_str(), source.as_str()) {
                    Some(f) => {
                        let n = f.definitions.len();
                        let m = f.references.len();
                        proof {
                            all = all.push(f);
                            assert(all.drop_last() =~= all0);
                            assert(contributing(inputs@, i + 1) == idx.push(i as int));
                            assert(result_for(all[all.len() - 1], inputs@[i as int])) by {
                                let nodes = choose|nodes: Seq<SyntaxNode>|
                                    well_formed(nodes) && nodes_of(nodes, spec_language_for_path(path@)->Some_0, source@) && file_result_matches(
                                        f,
                                        path@,
                                        source@,
                                        spec_language_for_path(path@)->Some_0,
                                        nodes,
                                    );
                            }
                            assert forall|k: int| 0 <= k < all.len() implies result_for(
                                #[trigger] all[k],
                                inputs@[contributing(inputs@, i + 1)[k]],
                            ) by {
                                if k < all0.len() {
                                    assert(all[k] == all0[k]);
                                    assert(contributing(inputs@, i + 1)[k] == idx[k]);
                                }
                            }
                            assert forall|k: int| 0 <= k < all.len() implies file_ok(#[trigger] all[k]) by {
                                if k < all0.len() {
                                    assert(all[k] == all0[k]);
                                }
                            }
                        }
                        if !too_many {
                            if n > MAX_LOCATIONS || m > MAX_LOCATIONS - n || total > MAX_LOCATIONS
                                - n - m {
                                too_many = true;
                            } else {
                                files.push(f);
                                total = total + n + m;
                                proof {
                                    assert(files@ =~= all);
                                }
                            }
                        }
                    },
                    None => {
                        proof {
                            assert(contributing(inputs@, i + 1) == idx);
                        }
                    },
                }
            },
        }
        i = i + 1;
    }
    proof {
        assert forall|j: int| !first_error(inputs@, j) by {
            if 0 <= j < inputs@.len() && inputs@[j] is Err {
                assert(inputs@[j] is Ok);
            }
        }
    }
    if too_many {
        proof {
            assert(files_from(all, inputs@));
        }
        return Err(CruxlinesError::TooManyLocations { count: total });
    }
    proof {
        assert forall|k: int| 0 <= k < files@.len() implies file_ok(#[trigger] files@[k]) by {
            assert(files@[k] == all[k]);
        }
    }
    let scan = merge_file_results(&files);
    proof {
        assert(scan_matches(scan, files@));
        assert(files_from(files@, inputs@));
        assert((forall|eco: Ecosystem| no_dup(#[trigger] eco_references(eco, files@))) ==> edges_distinct(scan.edges@));
    }
    let ghost sv = scan;
    let r: Result<ReferenceScan, CruxlinesError> = Ok(scan);
    assert(r->Ok_0 == sv);
    assert(scan_matches(r->Ok_0, files@));
    r
}

} // verus!
