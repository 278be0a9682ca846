use vstd::prelude::*;

use crate::languages::Language;
use crate::nodes::{
    child_by_field, field_child, field_child_at, is_kind, kind_is, lemma_field_child_from,
    parent, parent_is, parent_kind, parent_of,
};
use crate::syntax::{well_formed, SyntaxNode};

verus! {

/// A one-element list holding index `j`, or the empty list when `j` is -1.
pub open spec fn one(j: int) -> Seq<usize> {
    if j >= 0 {
        seq![j as usize]
    } else {
        seq![]
    }
}

fn one_exec(j: Option<usize>) -> (r: Vec<usize>)
    ensures
        r@ == match j {
            Some(k) => seq![k],
            None => Seq::<usize>::empty(),
        },
{
    let mut v: Vec<usize> = Vec::new();
    if let Some(k) = j {
        v.push(k);
    }
    v
}

/// The child of node `i` under the field `name`.
pub open spec fn name_of(nodes: Seq<SyntaxNode>, i: int) -> Seq<usize> {
    one(field_child(nodes, i, "name"@))
}

fn name_exec(nodes: &Vec<SyntaxNode>, i: usize) -> (r: Vec<usize>)
    requires
        well_formed(nodes@),
    ensures
        r@ == name_of(nodes@, i as int),
{
    proof {
        lemma_field_child_from(nodes@, i as int, "name"@, i + 1);
    }
    one_exec(child_by_field(nodes, i, "name"))
}

// ---------------------------------------------------------------------------------------
// Where a definition stands.
// ---------------------------------------------------------------------------------------

/// Python: directly in the module, or through one decorator wrapper in the module.
pub open spec fn python_top(nodes: Seq<SyntaxNode>, i: int) -> bool {
    parent_is(nodes, i, "module"@) || (parent_is(nodes, i, "decorated_definition"@) && parent_is(
        nodes,
        parent_of(nodes, i),
        "module"@,
    ))
}

fn python_top_exec(nodes: &Vec<SyntaxNode>, i: usize) -> (r: bool)
    requires
        well_formed(nodes@),
    ensures
        r == python_top(nodes@, i as int),
{
    if parent_kind(nodes, i, "module") {
        return true;
    }
    match parent(nodes, i) {
        Some(p) => is_kind(nodes, p, "decorated_definition") && parent_kind(nodes, p, "module"),
        None => false,
    }
}

/// C: directly in the translation unit.
pub open spec fn c_top(nodes: Seq<SyntaxNode>, i: int) -> bool {
    parent_is(nodes, i, "translation_unit"@)
}

/// C: a type specifier at the top, or inside a typedef or declaration at the top.
pub open spec fn c_top_type(nodes: Seq<SyntaxNode>, i: int) -> bool {
    c_top(nodes, i) || ((parent_is(nodes, i, "type_definition"@) || parent_is(
        nodes,
        i,
        "declaration"@,
    )) && c_top(nodes, parent_of(nodes, i)))
}

fn c_top_type_exec(nodes: &Vec<SyntaxNode>, i: usize) -> (r: bool)
    requires
        well_formed(nodes@),
    ensures
        r == c_top_type(nodes@, i as int),
{
    if parent_kind(nodes, i, "translation_unit") {
        return true;
    }
    match parent(nodes, i) {
        Some(p) => (is_kind(nodes, p, "type_definition") || is_kind(nodes, p, "declaration"))
            && parent_kind(nodes, p, "translation_unit"),
        None => false,
    }
}

/// C++: in the translation unit, in a namespace, or in a namespace's declaration list.
pub open spec fn cpp_top(nodes: Seq<SyntaxNode>, i: int) -> bool {
    parent_is(nodes, i, "translation_unit"@) || parent_is(nodes, i, "namespace_definition"@) || (
    parent_is(nodes, i, "declaration_list"@) && parent_is(
        nodes,
        parent_of(nodes, i),
        "namespace_definition"@,
    ))
}

fn cpp_top_exec(nodes: &Vec<SyntaxNode>, i: usize) -> (r: bool)
    requires
        well_formed(nodes@),
    ensures
        r == cpp_top(nodes@, i as int),
{
    if parent_kind(nodes, i, "translation_unit") || parent_kind(nodes, i, "namespace_definition") {
        return true;
    }
    match parent(nodes, i) {
        Some(p) => is_kind(nodes, p, "declaration_list") && parent_kind(
            nodes,
            p,
            "namespace_definition",
        ),
        None => false,
    }
}

/// C++: a type specifier at the top, or inside a typedef or declaration at the top.
pub open spec fn cpp_top_type(nodes: Seq<SyntaxNode>, i: int) -> bool {
    cpp_top(nodes, i) || ((parent_is(nodes, i, "type_definition"@) || parent_is(
        nodes,
        i,
        "declaration"@,
    )) && cpp_top(nodes, parent_of(nodes, i)))
}

fn cpp_top_type_exec(nodes: &Vec<SyntaxNode>, i: usize) -> (r: bool)
    requires
        well_formed(nodes@),
    ensures
        r == cpp_top_type(nodes@, i as int),
{
    if cpp_top_exec(nodes, i) {
        return true;
    }
    match parent(nodes, i) {
        Some(p) => (is_kind(nodes, p, "type_definition") || is_kind(nodes, p, "declaration"))
            && cpp_top_exec(nodes, p),
        None => false,
    }
}

/// C#: in the compilation unit, in a namespace (block or file-scoped), or in the declaration
/// list of one.
pub open spec fn csharp_top(nodes: Seq<SyntaxNode>, i: int) -> bool {
    let p = parent_of(nodes, i);
    parent_is(nodes, i, "compilation_unit"@) || parent_is(nodes, i, "namespace_declaration"@)
        || parent_is(nodes, i, "file_scoped_namespace_declaration"@) || (parent_is(
        nodes,
        i,
        "declaration_list"@,
    ) && (parent_is(nodes, p, "namespace_declaration"@) || parent_is(
        nodes,
        p,
        "file_scoped_namespace_declaration"@,
    )))
}

fn csharp_top_exec(nodes: &Vec<SyntaxNode>, i: usize) -> (r: bool)
    requires
        well_formed(nodes@),
    ensures
        r == csharp_top(nodes@, i as int),
{
    if parent_kind(nodes, i, "compilation_unit") || parent_kind(nodes, i, "namespace_declaration")
        || parent_kind(nodes, i, "file_scoped_namespace_declaration") {
        return true;
    }
    match parent(nodes, i) {
        Some(p) => is_kind(nodes, p, "declaration_list") && (parent_kind(
            nodes,
            p,
            "namespace_declaration",
        ) || parent_kind(nodes, p, "file_scoped_namespace_declaration")),
        None => false,
    }
}

/// PHP: in the program, in a namespace, or in a namespace's declaration or compound list.
pub open spec fn php_top(nodes: Seq<SyntaxNode>, i: int) -> bool {
    parent_is(nodes, i, "program"@) || parent_is(nodes, i, "namespace_definition"@) || ((
    parent_is(nodes, i, "declaration_list"@) || parent_is(nodes, i, "compound_statement"@))
        && parent_is(nodes, parent_of(nodes, i), "namespace_definition"@))
}

fn php_top_exec(nodes: &Vec<SyntaxNode>, i: usize) -> (r: bool)
    requires
        well_formed(nodes@),
    ensures
        r == php_top(nodes@, i as int),
{
    if parent_kind(nodes, i, "program") || parent_kind(nodes, i, "namespace_definition") {
        return true;
    }
    match parent(nodes, i) {
        Some(p) => (is_kind(nodes, p, "declaration_list") || is_kind(nodes, p, "compound_statement"))
            && parent_kind(nodes, p, "namespace_definition"),
        None => false,
    }
}

/// Go: a declaration kind for `const`, `var` or `type`.
pub open spec fn go_declaration(nodes: Seq<SyntaxNode>, i: int) -> bool {
    kind_is(nodes, i, "type_declaration"@) || kind_is(nodes, i, "const_declaration"@) || kind_is(
        nodes,
        i,
        "var_declaration"@,
    )
}

fn go_declaration_exec(nodes: &Vec<SyntaxNode>, i: usize) -> (r: bool)
    ensures
        r == go_declaration(nodes@, i as int),
{
    is_kind(nodes, i, "type_declaration") || is_kind(nodes, i, "const_declaration") || is_kind(
        nodes,
        i,
        "var_declaration",
    )
}

/// Go: a spec in a declaration at file scope, directly or through the declaration's spec list.
pub open spec fn go_top_spec(nodes: Seq<SyntaxNode>, i: int) -> bool {
    let p = parent_of(nodes, i);
    let g = parent_of(nodes, p);
    (go_declaration(nodes, p) && parent_is(nodes, p, "source_file"@)) || ((kind_is(
        nodes,
        p,
        "type_spec_list"@,
    ) || kind_is(nodes, p, "const_spec_list"@) || kind_is(nodes, p, "var_spec_list"@))
        && go_declaration(nodes, g) && parent_is(nodes, g, "source_file"@))
}

fn go_top_spec_exec(nodes: &Vec<SyntaxNode>, i: usize) -> (r: bool)
    requires
        well_formed(nodes@),
    ensures
        r == go_top_spec(nodes@, i as int),
{
    let p = match parent(nodes, i) {
        Some(p) => p,
        None => return false,
    };
    let direct = go_declaration_exec(nodes, p) && parent_kind(nodes, p, "source_file");
    let listed = if is_kind(nodes, p, "type_spec_list") || is_kind(nodes, p, "const_spec_list")
        || is_kind(nodes, p, "var_spec_list") {
        match parent(nodes, p) {
            Some(g) => go_declaration_exec(nodes, g) && parent_kind(nodes, g, "source_file"),
            None => false,
        }
    } else {
        false
    };
    direct || listed
}

/// JavaScript family: node `j` or one of its ancestors, below the program, is an export.
pub open spec fn exported_from(nodes: Seq<SyntaxNode>, j: int) -> bool
    decreases j + 1,
{
    if !(0 <= j < nodes.len()) {
        false
    } else if kind_is(nodes, j, "export_statement"@) || kind_is(
        nodes,
        j,
        "export_default_declaration"@,
    ) {
        true
    } else if kind_is(nodes, j, "program"@) {
        false
    } else {
        let p = parent_of(nodes, j);
        if -1 <= p < j {
            exported_from(nodes, p)
        } else {
            false
        }
    }
}

fn exported_exec(nodes: &Vec<SyntaxNode>, i: usize) -> (r: bool)
    requires
        well_formed(nodes@),
    ensures
        r == exported_from(nodes@, parent_of(nodes@, i as int)),
{
    let mut cur = parent(nodes, i);
    loop
        invariant
            well_formed(nodes@),
            exported_from(nodes@, parent_of(nodes@, i as int)) == match cur {
                Some(j) => exported_from(nodes@, j as int),
                None => false,
            },
            cur matches Some(j) ==> j < nodes@.len(),
        decreases match cur {
            Some(j) => j + 1,
            None => 0,
        },
    {
        match cur {
            None => return false,
            Some(j) => {
                if is_kind(nodes, j, "export_statement") || is_kind(
                    nodes,
                    j,
                    "export_default_declaration",
                ) {
                    return true;
                }
                if is_kind(nodes, j, "program") {
                    return false;
                }
                assert(exported_from(nodes@, j as int) == exported_from(
                    nodes@,
                    parent_of(nodes@, j as int),
                ));
                cur = parent(nodes, j);
            },
        }
    }
}

// ---------------------------------------------------------------------------------------
// Names inside C and C++ declarators.
// ---------------------------------------------------------------------------------------

/// A declarator kind that wraps an inner declarator under the field `declarator`.
pub open spec fn wraps_declarator(nodes: Seq<SyntaxNode>, i: int, cpp: bool) -> bool {
    kind_is(nodes, i, "pointer_declarator"@) || kind_is(nodes, i, "array_declarator"@) || kind_is(
        nodes,
        i,
        "function_declarator"@,
    ) || (!cpp && (kind_is(nodes, i, "parenthesized_declarator"@) || kind_is(
        nodes,
        i,
        "init_declarator"@,
    ))) || (cpp && kind_is(nodes, i, "reference_declarator"@))
}

/// The identifier that a declarator declares, following inner declarators, or -1.
pub open spec fn declarator_id(nodes: Seq<SyntaxNode>, i: int, cpp: bool) -> int
    decreases nodes.len() - i,
{
    if !(0 <= i < nodes.len()) {
        -1
    } else if kind_is(nodes, i, "identifier"@) || kind_is(nodes, i, "type_identifier"@) || (cpp
        && kind_is(nodes, i, "field_identifier"@)) {
        i
    } else if cpp && kind_is(nodes, i, "qualified_identifier"@) {
        field_child(nodes, i, "name"@)
    } else if wraps_declarator(nodes, i, cpp) {
        let d = field_child(nodes, i, "declarator"@);
        if i < d < nodes.len() {
            declarator_id(nodes, d, cpp)
        } else {
            -1
        }
    } else {
        -1
    }
}

fn declarator_id_exec(nodes: &Vec<SyntaxNode>, i: usize, cpp: bool) -> (r: Option<usize>)
    requires
        well_formed(nodes@),
    ensures
        match r {
            Some(k) => k == declarator_id(nodes@, i as int, cpp),
            None => declarator_id(nodes@, i as int, cpp) == -1,
        },
    decreases nodes@.len() - i,
{
    if i >= nodes.len() {
        return None;
    }
    if is_kind(nodes, i, "identifier") || is_kind(nodes, i, "type_identifier") || (cpp && is_kind(
        nodes,
        i,
        "field_identifier",
    )) {
        return Some(i);
    }
    if cpp && is_kind(nodes, i, "qualified_identifier") {
        proof {
            lemma_field_child_from(nodes@, i as int, "name"@, i + 1);
        }
        return child_by_field(nodes, i, "name");
    }
    let wraps = is_kind(nodes, i, "pointer_declarator") || is_kind(nodes, i, "array_declarator")
        || is_kind(nodes, i, "function_declarator") || (!cpp && (is_kind(
        nodes,
        i,
        "parenthesized_declarator",
    ) || is_kind(nodes, i, "init_declarator"))) || (cpp && is_kind(
        nodes,
        i,
        "reference_declarator",
    ));
    if wraps {
        match child_by_field(nodes, i, "declarator") {
            Some(d) => declarator_id_exec(nodes, d, cpp),
            None => None,
        }
    } else {
        None
    }
}

/// The name declared by the `declarator` child of node `i`.
pub open spec fn declared_name(nodes: Seq<SyntaxNode>, i: int, cpp: bool) -> Seq<usize> {
    let d = field_child(nodes, i, "declarator"@);
    if d >= 0 {
        one(declarator_id(nodes, d, cpp))
    } else {
        seq![]
    }
}

fn declared_name_exec(nodes: &Vec<SyntaxNode>, i: usize, cpp: bool) -> (r: Vec<usize>)
    requires
        well_formed(nodes@),
    ensures
        r@ == declared_name(nodes@, i as int, cpp),
{
    match child_by_field(nodes, i, "declarator") {
        Some(d) => {
            let k = declarator_id_exec(nodes, d, cpp);
            proof {
                if k is Some {
                    assert(declarator_id(nodes@, d as int, cpp) >= 0);
                }
            }
            one_exec(k)
        },
        None => Vec::new(),
    }
}

/// Some node of the subtree in `lo..hi` is a function declarator.
pub open spec fn has_function_declarator_in(nodes: Seq<SyntaxNode>, lo: int, hi: int) -> bool {
    exists|k: int| lo <= k < hi && kind_is(nodes, k, "function_declarator"@)
}

/// The `declarator` child of node `i` declares a function.
pub open spec fn declares_function(nodes: Seq<SyntaxNode>, i: int) -> bool {
    let d = field_child(nodes, i, "declarator"@);
    d >= 0 && has_function_declarator_in(nodes, d, nodes[d].end as int)
}

fn declares_function_exec(nodes: &Vec<SyntaxNode>, i: usize) -> (r: bool)
    requires
        well_formed(nodes@),
    ensures
        r == declares_function(nodes@, i as int),
{
    let d = match child_by_field(nodes, i, "declarator") {
        Some(d) => d,
        None => return false,
    };
    let end = nodes[d].end;
    proof {
        assert(nodes@[d as int].parent matches Some(q) ==> q < d);
    }
    let mut k: usize = d;
    while k < end
        invariant
            well_formed(nodes@),
            d < nodes@.len(),
            field_child(nodes@, i as int, "declarator"@) == d,
            d <= k,
            end == nodes@[d as int].end,
            forall|m: int| d <= m < k ==> !kind_is(nodes@, m, "function_declarator"@),
        decreases end - k,
    {
        if is_kind(nodes, k, "function_declarator") {
            assert(has_function_declarator_in(nodes@, d as int, end as int));
            return true;
        }
        k = k + 1;
    }
    false
}

// ---------------------------------------------------------------------------------------
// Definitions that name several entities.
// ---------------------------------------------------------------------------------------

/// The identifier nodes among indices `lo..hi`.
pub open spec fn identifiers_in(nodes: Seq<SyntaxNode>, lo: int, hi: int) -> Seq<usize>
    decreases hi - lo,
{
    if hi <= lo {
        seq![]
    } else {
        identifiers_in(nodes, lo, hi - 1) + if kind_is(nodes, hi - 1, "identifier"@) {
            seq![(hi - 1) as usize]
        } else {
            seq![]
        }
    }
}

/// The identifier nodes in the subtree of the child of node `i` under field `f`.
pub open spec fn identifiers_under(nodes: Seq<SyntaxNode>, i: int, f: Seq<char>) -> Seq<usize> {
    let c = field_child(nodes, i, f);
    if c >= 0 {
        identifiers_in(nodes, c, nodes[c].end as int)
    } else {
        seq![]
    }
}

fn identifiers_under_exec(nodes: &Vec<SyntaxNode>, i: usize, f: &str) -> (r: Vec<usize>)
    requires
        well_formed(nodes@),
    ensures
        r@ == identifiers_under(nodes@, i as int, f@),
{
    let c = match child_by_field(nodes, i, f) {
        Some(c) => c,
        None => return Vec::new(),
    };
    let end = nodes[c].end;
    proof {
        assert(nodes@[c as int].parent matches Some(q) ==> q < c);
    }
    let mut out: Vec<usize> = Vec::new();
    let mut k: usize = c;
    while k < end
        invariant
            well_formed(nodes@),
            c < nodes@.len(),
            c <= k <= end,
            end == nodes@[c as int].end,
            out@ == identifiers_in(nodes@, c as int, k as int),
        decreases end - k,
    {
        if is_kind(nodes, k, "identifier") {
            out.push(k);
        }
        k = k + 1;
    }
    out
}

/// C: the names of all `declarator` children of node `i` among indices below `hi`.
pub open spec fn c_declarators(nodes: Seq<SyntaxNode>, i: int, hi: int) -> Seq<usize>
    decreases hi - (i + 1),
{
    if hi <= i + 1 {
        seq![]
    } else {
        c_declarators(nodes, i, hi - 1) + if field_child_at(nodes, i, hi - 1, "declarator"@) {
            one(declarator_id(nodes, hi - 1, false))
        } else {
            seq![]
        }
    }
}

fn c_declarators_exec(nodes: &Vec<SyntaxNode>, i: usize) -> (r: Vec<usize>)
    requires
        well_formed(nodes@),
        i < nodes@.len(),
    ensures
        r@ == c_declarators(nodes@, i as int, nodes@[i as int].end as int),
{
    let end = nodes[i].end;
    let mut out: Vec<usize> = Vec::new();
    let mut c: usize = i + 1;
    proof {
        assert(nodes@[i as int].parent matches Some(q) ==> q < i);
    }
    while c < end
        invariant
            well_formed(nodes@),
            i + 1 <= c <= end,
            end == nodes@[i as int].end,
            end <= nodes@.len(),
            out@ == c_declarators(nodes@, i as int, c as int),
        decreases end - c,
    {
        let here = match nodes[c].parent {
            Some(p) => p == i && match &nodes[c].field {
                Some(f) => crate::text::str_eq(f.as_str(), "declarator"),
                None => false,
            },
            None => false,
        };
        if here {
            let mut piece = one_exec(declarator_id_exec(nodes, c, false));
            out.append(&mut piece);
        }
        c = c + 1;
    }
    out
}

/// The first child of node `i` with kind `k`, among indices `j` up to the subtree's end, or -1.
pub open spec fn kind_child_from(nodes: Seq<SyntaxNode>, i: int, k: Seq<char>, j: int) -> int
    decreases nodes.len() - j,
{
    if j < 0 || j >= nodes.len() || !(0 <= i < nodes.len()) || j >= nodes[i].end {
        -1
    } else if parent_of(nodes, j) == i && kind_is(nodes, j, k) {
        j
    } else {
        kind_child_from(nodes, i, k, j + 1)
    }
}

fn kind_child_exec(nodes: &Vec<SyntaxNode>, i: usize, k: &str) -> (r: Option<usize>)
    requires
        well_formed(nodes@),
        i < nodes@.len(),
    ensures
        match r {
            Some(j) => j == kind_child_from(nodes@, i as int, k@, i + 1),
            None => kind_child_from(nodes@, i as int, k@, i + 1) == -1,
        },
{
    let end = nodes[i].end;
    let mut j: usize = i + 1;
    proof {
        assert(nodes@[i as int].parent matches Some(q) ==> q < i);
    }
    while j < end
        invariant
            well_formed(nodes@),
            i < nodes@.len(),
            i + 1 <= j,
            end == nodes@[i as int].end,
            end <= nodes@.len(),
            kind_child_from(nodes@, i as int, k@, i + 1) == kind_child_from(
                nodes@,
                i as int,
                k@,
                j as int,
            ),
        decreases end - j,
    {
        if nodes[j].parent == Some(i) && is_kind(nodes, j, k) {
            return Some(j);
        }
        j = j + 1;
    }
    None
}

/// PHP: the name of each `const_element` child of node `i` among indices below `hi`.
pub open spec fn php_consts(nodes: Seq<SyntaxNode>, i: int, hi: int) -> Seq<usize>
    decreases hi - (i + 1),
{
    if hi <= i + 1 {
        seq![]
    } else {
        php_consts(nodes, i, hi - 1) + if parent_of(nodes, hi - 1) == i && kind_is(
            nodes,
            hi - 1,
            "const_element"@,
        ) {
            one(kind_child_from(nodes, hi - 1, "name"@, hi))
        } else {
            seq![]
        }
    }
}

/// C++: the names declared by each class, struct, function or declaration child of a
/// template declaration `i`, among indices below `hi`.
pub open spec fn template_names(nodes: Seq<SyntaxNode>, i: int, hi: int) -> Seq<usize>
    decreases hi - (i + 1),
{
    if hi <= i + 1 {
        seq![]
    } else {
        let c = hi - 1;
        template_names(nodes, i, c) + if parent_of(nodes, c) != i {
            seq![]
        } else if kind_is(nodes, c, "class_specifier"@) || kind_is(nodes, c, "struct_specifier"@) {
            name_of(nodes, c)
        } else if kind_is(nodes, c, "function_definition"@) || kind_is(nodes, c, "declaration"@) {
            declared_name(nodes, c, true)
        } else {
            seq![]
        }
    }
}

/// The children of node `i` that a per-child rule applies to, in order.
fn children_exec(nodes: &Vec<SyntaxNode>, i: usize, php: bool) -> (r: Vec<usize>)
    requires
        well_formed(nodes@),
        i < nodes@.len(),
    ensures
        php ==> r@ == php_consts(nodes@, i as int, nodes@[i as int].end as int),
        !php ==> r@ == template_names(nodes@, i as int, nodes@[i as int].end as int),
{
    let end = nodes[i].end;
    let mut out: Vec<usize> = Vec::new();
    let mut c: usize = i + 1;
    proof {
        assert(nodes@[i as int].parent matches Some(q) ==> q < i);
    }
    while c < end
        invariant
            well_formed(nodes@),
            i + 1 <= c <= end,
            end == nodes@[i as int].end,
            end <= nodes@.len(),
            php ==> out@ == php_consts(nodes@, i as int, c as int),
            !php ==> out@ == template_names(nodes@, i as int, c as int),
        decreases end - c,
    {
        if nodes[c].parent == Some(i) {
            let mut piece: Vec<usize> = if php {
                if is_kind(nodes, c, "const_element") {
                    let k = kind_child_exec(nodes, c, "name");
                    proof {
                        if k is Some {
                            assert(kind_child_from(nodes@, c as int, "name"@, c + 1) >= 0);
                        }
                    }
                    one_exec(k)
                } else {
                    Vec::new()
                }
            } else if is_kind(nodes, c, "class_specifier") || is_kind(nodes, c, "struct_specifier") {
                name_exec(nodes, c)
            } else if is_kind(nodes, c, "function_definition") || is_kind(nodes, c, "declaration") {
                declared_name_exec(nodes, c, true)
            } else {
                Vec::new()
            };
            out.append(&mut piece);
        }
        c = c + 1;
    }
    out
}

// ---------------------------------------------------------------------------------------
// Definitions and references of one file.
// ---------------------------------------------------------------------------------------

/// The name nodes that node `i` defines, by the rules of its language.
pub open spec fn definitions_at(lang: Language, nodes: Seq<SyntaxNode>, i: int) -> Seq<usize> {
    let k = |s: Seq<char>| kind_is(nodes, i, s);
    match lang {
        Language::Python => if (k("function_definition"@) || k("class_definition"@)) && python_top(
            nodes,
            i,
        ) {
            name_of(nodes, i)
        } else if k("assignment"@) && python_top(nodes, i) {
            identifiers_under(nodes, i, "left"@)
        } else {
            seq![]
        },
        Language::Rust => if (k("function_item"@) || k("struct_item"@) || k("enum_item"@) || k(
            "const_item"@,
        ) || k("static_item"@) || k("type_item"@) || k("trait_item"@)) && parent_is(
            nodes,
            i,
            "source_file"@,
        ) {
            name_of(nodes, i)
        } else {
            seq![]
        },
        Language::Java => if (k("class_declaration"@) || k("interface_declaration"@) || k(
            "enum_declaration"@,
        ) || k("record_declaration"@) || k("annotation_type_declaration"@)) && parent_is(
            nodes,
            i,
            "program"@,
        ) {
            name_of(nodes, i)
        } else {
            seq![]
        },
        Language::Kotlin => if (k("class_declaration"@) || k("object_declaration"@) || k(
            "function_declaration"@,
        ) || k("property_declaration"@) || k("type_alias"@)) && parent_is(
            nodes,
            i,
            "source_file"@,
        ) {
            name_of(nodes, i)
        } else {
            seq![]
        },
        Language::CSharp => if (k("class_declaration"@) || k("interface_declaration"@) || k(
            "struct_declaration"@,
        ) || k("enum_declaration"@) || k("record_declaration"@) || k(
            "record_struct_declaration"@,
        ) || k("delegate_declaration"@)) && csharp_top(nodes, i) {
            name_of(nodes, i)
        } else {
            seq![]
        },
        Language::Go => if (k("function_declaration"@) || k("method_declaration"@)) && parent_is(
            nodes,
            i,
            "source_file"@,
        ) {
            name_of(nodes, i)
        } else if (k("type_spec"@) || k("const_spec"@) || k("var_spec"@)) && go_top_spec(nodes, i) {
            name_of(nodes, i)
        } else {
            seq![]
        },
        Language::Php => if (k("class_declaration"@) || k("interface_declaration"@) || k(
            "trait_declaration"@,
        ) || k("enum_declaration"@) || k("function_definition"@)) && php_top(nodes, i) {
            name_of(nodes, i)
        } else if k("const_declaration"@) && php_top(nodes, i) {
            php_consts(nodes, i, nodes[i].end as int)
        } else {
            seq![]
        },
        Language::JavaScript | Language::TypeScript | Language::TypeScriptReact => if (k(
            "function_declaration"@,
        ) || k("class_declaration"@) || k("interface_declaration"@) || k(
            "type_alias_declaration"@,
        ) || k("enum_declaration"@)) && exported_from(nodes, parent_of(nodes, i)) {
            name_of(nodes, i)
        } else if k("variable_declarator"@) && exported_from(nodes, parent_of(nodes, i)) {
            identifiers_under(nodes, i, "name"@)
        } else {
            seq![]
        },
        Language::C => if k("function_definition"@) && c_top(nodes, i) {
            declared_name(nodes, i, false)
        } else if (k("struct_specifier"@) || k("enum_specifier"@) || k("union_specifier"@))
            && c_top_type(nodes, i) {
            name_of(nodes, i)
        } else if k("type_definition"@) && c_top(nodes, i) {
            declared_name(nodes, i, false)
        } else if k("declaration"@) && c_top(nodes, i) && !declares_function(nodes, i) {
            c_declarators(nodes, i, nodes[i].end as int)
        } else {
            seq![]
        },
        Language::Cpp => if k("function_definition"@) && cpp_top(nodes, i) {
            declared_name(nodes, i, true)
        } else if (k("class_specifier"@) || k("struct_specifier"@) || k("enum_specifier"@) || k(
            "union_specifier"@,
        )) && cpp_top_type(nodes, i) {
            name_of(nodes, i)
        } else if k("type_definition"@) && cpp_top(nodes, i) {
            declared_name(nodes, i, true)
        } else if k("namespace_definition"@) && cpp_top(nodes, i) {
            name_of(nodes, i)
        } else if k("declaration"@) && cpp_top(nodes, i) && !declares_function(nodes, i) {
            declared_name(nodes, i, true)
        } else if k("template_declaration"@) && cpp_top(nodes, i) {
            template_names(nodes, i, nodes[i].end as int)
        } else {
            seq![]
        },
    }
}

fn definitions_at_exec(lang: Language, nodes: &Vec<SyntaxNode>, i: usize) -> (r: Vec<usize>)
    requires
        well_formed(nodes@),
        i < nodes@.len(),
    ensures
        r@ == definitions_at(lang, nodes@, i as int),
{
    let none: Vec<usize> = Vec::new();
    match lang {
        Language::Python => if (is_kind(nodes, i, "function_definition") || is_kind(
            nodes,
            i,
            "class_definition",
        )) && python_top_exec(nodes, i) {
            name_exec(nodes, i)
        } else if is_kind(nodes, i, "assignment") && python_top_exec(nodes, i) {
            identifiers_under_exec(nodes, i, "left")
        } else {
            none
        },
        Language::Rust => if (is_kind(nodes, i, "function_item") || is_kind(nodes, i, "struct_item")
            || is_kind(nodes, i, "enum_item") || is_kind(nodes, i, "const_item") || is_kind(
            nodes,
            i,
            "static_item",
        ) || is_kind(nodes, i, "type_item") || is_kind(nodes, i, "trait_item")) && parent_kind(
            nodes,
            i,
            "source_file",
        ) {
            name_exec(nodes, i)
        } else {
            none
        },
        Language::Java => if (is_kind(nodes, i, "class_declaration") || is_kind(
            nodes,
            i,
            "interface_declaration",
        ) || is_kind(nodes, i, "enum_declaration") || is_kind(nodes, i, "record_declaration")
            || is_kind(nodes, i, "annotation_type_declaration")) && parent_kind(
            nodes,
            i,
            "program",
        ) {
            name_exec(nodes, i)
        } else {
            none
        },
        Language::Kotlin => if (is_kind(nodes, i, "class_declaration") || is_kind(
            nodes,
            i,
            "object_declaration",
        ) || is_kind(nodes, i, "function_declaration") || is_kind(nodes, i, "property_declaration")
            || is_kind(nodes, i, "type_alias")) && parent_kind(nodes, i, "source_file") {
            name_exec(nodes, i)
        } else {
            none
        },
        Language::CSharp => if (is_kind(nodes, i, "class_declaration") || is_kind(
            nodes,
            i,
            "interface_declaration",
        ) || is_kind(nodes, i, "struct_declaration") || is_kind(nodes, i, "enum_declaration")
            || is_kind(nodes, i, "record_declaration") || is_kind(
            nodes,
            i,
            "record_struct_declaration",
        ) || is_kind(nodes, i, "delegate_declaration")) && csharp_top_exec(nodes, i) {
            name_exec(nodes, i)
        } else {
            none
        },
        Language::Go => if (is_kind(nodes, i, "function_declaration") || is_kind(
            nodes,
            i,
            "method_declaration",
        )) && parent_kind(nodes, i, "source_file") {
            name_exec(nodes, i)
        } else if (is_kind(nodes, i, "type_spec") || is_kind(nodes, i, "const_spec") || is_kind(
            nodes,
            i,
            "var_spec",
        )) && go_top_spec_exec(nodes, i) {
            name_exec(nodes, i)
        } else {
            none
        },
        Language::Php => if (is_kind(nodes, i, "class_declaration") || is_kind(
            nodes,
            i,
            "interface_declaration",
        ) || is_kind(nodes, i, "trait_declaration") || is_kind(nodes, i, "enum_declaration")
            || is_kind(nodes, i, "function_definition")) && php_top_exec(nodes, i) {
            name_exec(nodes, i)
        } else if is_kind(nodes, i, "const_declaration") && php_top_exec(nodes, i) {
            children_exec(nodes, i, true)
        } else {
            none
        },
        Language::JavaScript | Language::TypeScript | Language::TypeScriptReact => if (is_kind(
            nodes,
            i,
            "function_declaration",
        ) || is_kind(nodes, i, "class_declaration") || is_kind(nodes, i, "interface_declaration")
            || is_kind(nodes, i, "type_alias_declaration") || is_kind(
            nodes,
            i,
            "enum_declaration",
        )) && exported_exec(nodes, i) {
            name_exec(nodes, i)
        } else if is_kind(nodes, i, "variable_declarator") && exported_exec(nodes, i) {
            identifiers_under_exec(nodes, i, "name")
        } else {
            none
        },
        Language::C => if is_kind(nodes, i, "function_definition") && parent_kind(
            nodes,
            i,
            "translation_unit",
        ) {
            declared_name_exec(nodes, i, false)
        } else if (is_kind(nodes, i, "struct_specifier") || is_kind(nodes, i, "enum_specifier")
            || is_kind(nodes, i, "union_specifier")) && c_top_type_exec(nodes, i) {
            name_exec(nodes, i)
        } else if is_kind(nodes, i, "type_definition") && parent_kind(
            nodes,
            i,
            "translation_unit",
        ) {
            declared_name_exec(nodes, i, false)
        } else if is_kind(nodes, i, "declaration") && parent_kind(nodes, i, "translation_unit")
            && !declares_function_exec(nodes, i) {
            c_declarators_exec(nodes, i)
        } else {
            none
        },
        Language::Cpp => if is_kind(nodes, i, "function_definition") && cpp_top_exec(nodes, i) {
            declared_name_exec(nodes, i, true)
        } else if (is_kind(nodes, i, "class_specifier") || is_kind(nodes, i, "struct_specifier")
            || is_kind(nodes, i, "enum_specifier") || is_kind(nodes, i, "union_specifier"))
            && cpp_top_type_exec(nodes, i) {
            name_exec(nodes, i)
        } else if is_kind(nodes, i, "type_definition") && cpp_top_exec(nodes, i) {
            declared_name_exec(nodes, i, true)
        } else if is_kind(nodes, i, "namespace_definition") && cpp_top_exec(nodes, i) {
            name_exec(nodes, i)
        } else if is_kind(nodes, i, "declaration") && cpp_top_exec(nodes, i)
            && !declares_function_exec(nodes, i) {
            declared_name_exec(nodes, i, true)
        } else if is_kind(nodes, i, "template_declaration") && cpp_top_exec(nodes, i) {
            children_exec(nodes, i, false)
        } else {
            none
        },
    }
}

/// The definition name nodes of a file, node by node in pre-order, for the nodes below `hi`.
pub open spec fn definitions_upto(lang: Language, nodes: Seq<SyntaxNode>, hi: int) -> Seq<usize>
    decreases hi,
{
    if hi <= 0 {
        seq![]
    } else {
        definitions_upto(lang, nodes, hi - 1) + definitions_at(lang, nodes, hi - 1)
    }
}

/// The name nodes of the file's top-level definitions.
pub fn definition_nodes(lang: Language, nodes: &Vec<SyntaxNode>) -> (r: Vec<usize>)
    requires
        well_formed(nodes@),
    ensures
        r@ == definitions_upto(lang, nodes@, nodes@.len() as int),
{
    let mut out: Vec<usize> = Vec::new();
    let mut i: usize = 0;
    while i < nodes.len()
        invariant
            well_formed(nodes@),
            i <= nodes@.len(),
            out@ == definitions_upto(lang, nodes@, i as int),
        decreases nodes@.len() - i,
    {
        let mut piece = definitions_at_exec(lang, nodes, i);
        out.append(&mut piece);
        i = i + 1;
    }
    out
}

/// Whether node `i` has a kind that the language counts as a candidate reference.
pub open spec fn is_reference_kind(lang: Language, nodes: Seq<SyntaxNode>, i: int) -> bool {
    let k = |s: Seq<char>| kind_is(nodes, i, s);
    match lang {
        Language::C | Language::Go => k("identifier"@) || k("type_identifier"@) || k(
            "field_identifier"@,
        ),
        Language::Cpp => k("identifier"@) || k("type_identifier"@) || k("field_identifier"@) || k(
            "qualified_identifier"@,
        ),
        Language::CSharp => k("identifier"@) || k("generic_name"@),
        Language::Java | Language::Rust => k("identifier"@) || k("type_identifier"@),
        Language::Kotlin => k("simple_identifier"@) || k("identifier"@) || k("type_identifier"@),
        Language::Php => k("name"@) || k("qualified_name"@),
        Language::Python => k("identifier"@),
        Language::JavaScript | Language::TypeScript | Language::TypeScriptReact => k(
            "identifier"@,
        ) || k("jsx_identifier"@) || k("type_identifier"@),
    }
}

fn is_reference_kind_exec(lang: Language, nodes: &Vec<SyntaxNode>, i: usize) -> (r: bool)
    ensures
        r == is_reference_kind(lang, nodes@, i as int),
{
    match lang {
        Language::C | Language::Go => is_kind(nodes, i, "identifier") || is_kind(
            nodes,
            i,
            "type_identifier",
        ) || is_kind(nodes, i, "field_identifier"),
        Language::Cpp => is_kind(nodes, i, "identifier") || is_kind(nodes, i, "type_identifier")
            || is_kind(nodes, i, "field_identifier") || is_kind(nodes, i, "qualified_identifier"),
        Language::CSharp => is_kind(nodes, i, "identifier") || is_kind(nodes, i, "generic_name"),
        Language::Java | Language::Rust => is_kind(nodes, i, "identifier") || is_kind(
            nodes,
            i,
            "type_identifier",
        ),
        Language::Kotlin => is_kind(nodes, i, "simple_identifier") || is_kind(nodes, i, "identifier")
            || is_kind(nodes, i, "type_identifier"),
        Language::Php => is_kind(nodes, i, "name") || is_kind(nodes, i, "qualified_name"),
        Language::Python => is_kind(nodes, i, "identifier"),
        Language::JavaScript | Language::TypeScript | Language::TypeScriptReact => is_kind(
            nodes,
            i,
            "identifier",
        ) || is_kind(nodes, i, "jsx_identifier") || is_kind(nodes, i, "type_identifier"),
    }
}

/// The candidate reference nodes among the nodes below `hi`, in pre-order.
pub open spec fn references_upto(lang: Language, nodes: Seq<SyntaxNode>, hi: int) -> Seq<usize>
    decreases hi,
{
    if hi <= 0 {
        seq![]
    } else {
        references_upto(lang, nodes, hi - 1) + if is_reference_kind(lang, nodes, hi - 1) {
            seq![(hi - 1) as usize]
        } else {
            seq![]
        }
    }
}

/// The nodes of the file whose kind the language counts as a candidate reference.
pub fn reference_nodes(lang: Language, nodes: &Vec<SyntaxNode>) -> (r: Vec<usize>)
    ensures
        r@ == references_upto(lang, nodes@, nodes@.len() as int),
{
    let mut out: Vec<usize> = Vec::new();
    let mut i: usize = 0;
    while i < nodes.len()
        invariant
            i <= nodes@.len(),
            out@ == references_upto(lang, nodes@, i as int),
        decreases nodes@.len() - i,
    {
        if is_reference_kind_exec(lang, nodes, i) {
            out.push(i);
        }
        i = i + 1;
    }
    out
}

/// The rightmost name of a qualified identifier (`a::b::c` gives `c`), following its `name`
/// children; any other node names itself.
pub open spec fn rightmost_name(nodes: Seq<SyntaxNode>, i: int) -> int
    decreases nodes.len() - i,
{
    if kind_is(nodes, i, "qualified_identifier"@) {
        let c = field_child(nodes, i, "name"@);
        if i < c < nodes.len() {
            rightmost_name(nodes, c)
        } else {
            i
        }
    } else {
        i
    }
}

/// The node whose text names the reference at node `i`: for C++ the rightmost name of a
/// qualified identifier, otherwise the node itself.
pub open spec fn reference_name(lang: Language, nodes: Seq<SyntaxNode>, i: int) -> int {
    if lang == Language::Cpp {
        rightmost_name(nodes, i)
    } else {
        i
    }
}

pub fn reference_name_exec(lang: Language, nodes: &Vec<SyntaxNode>, i: usize) -> (r: usize)
    requires
        well_formed(nodes@),
        i < nodes@.len(),
    ensures
        r == reference_name(lang, nodes@, i as int),
        r < nodes@.len(),
{
    if lang != Language::Cpp {
        return i;
    }
    let mut cur = i;
    while is_kind(nodes, cur, "qualified_identifier")
        invariant
            lang == Language::Cpp,
            well_formed(nodes@),
            cur < nodes@.len(),
            rightmost_name(nodes@, i as int) == rightmost_name(nodes@, cur as int),
        decreases nodes@.len() - cur,
    {
        match child_by_field(nodes, cur, "name") {
            Some(c) => {
                cur = c;
            },
            None => {
                assert(rightmost_name(nodes@, cur as int) == cur);
                return cur;
            },
        }
    }
    cur
}

} // verus!
