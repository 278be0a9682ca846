use cruxlines::analysis::{cruxlines_from_inputs, DefinitionRow};
use cruxlines::find_references::{find_references, scan_file, CruxlinesError};
use cruxlines::languages::Language;
use cruxlines::syntax::syntax_nodes;

fn file(path: &str, source: &str) -> (String, String) {
    (path.to_string(), source.to_string())
}

fn rows_of(files: Vec<(String, String)>) -> Vec<DefinitionRow> {
    cruxlines_from_inputs(files).expect("rows")
}

fn extension(path: &str) -> Option<String> {
    std::path::Path::new(path).extension().and_then(|ext| ext.to_str()).map(|ext| ext.to_string())
}

fn has_reference(rows: &[DefinitionRow], def_name: &str, def_path_ends: &str, use_path_ends: &str) -> bool {
    rows.iter().any(|row| {
        row.definition.name == def_name
            && row.definition.path.ends_with(def_path_ends)
            && row.references.iter().any(|reference| reference.path.ends_with(use_path_ends))
    })
}

#[test]
fn walk_tree_visits_nodes() {
    let nodes = syntax_nodes(Language::Python, "x = 1\n").expect("parse");
    let kinds: Vec<String> = nodes.iter().map(|n| n.kind.clone()).collect();
    assert!(kinds.contains(&"module".to_string()));
    assert!(kinds.contains(&"identifier".to_string()));
}

#[test]
fn kotlin_references_are_not_duplicated() {
    let files = vec![
        file("utils.kt", "fun add(a: Int, b: Int): Int {\n    return a + b\n}\n"),
        file("main.kt", "fun main() {\n    utils.add(1, 2)\n}\n"),
    ];
    let rows = rows_of(files);
    let add_row = rows.iter().find(|row| row.definition.name == "add").expect("expected add definition");
    let ref_count = add_row.references.iter().filter(|reference| reference.path.ends_with("main.kt")).count();
    assert_eq!(ref_count, 1, "expected one reference for add, got {ref_count}");
}

#[test]
fn finds_rust_type_identifier_references() {
    let files = vec![
        file("models.rs", "pub struct User;\n"),
        file("main.rs", "mod models;\n\nfn main() {\n    let _u: models::User;\n}\n"),
    ];
    let rows = rows_of(files);
    assert!(
        has_reference(&rows, "User", "models.rs", "main.rs"),
        "expected reference to models::User from main.rs type usage"
    );
}

#[test]
fn finds_cross_language_references_within_ecosystem() {
    let files = vec![
        file("utils.ts", "export function add(a: number, b: number): number {\n    return a + b;\n}\n"),
        file("main.js", "import { add } from \"./utils\";\nconsole.log(add(1, 2));\n"),
    ];
    let rows = rows_of(files);
    assert!(has_reference(&rows, "add", "utils.ts", "main.js"), "expected reference to utils.ts add from main.js");
}

#[test]
fn does_not_cross_language_references() {
    let files = vec![
        file("a.py", "def add():\n    return 1\n\nadd()\n"),
        file("b.rs", "fn add() -> i32 { 1 }\n\nfn main() {\n    add();\n}\n"),
    ];
    let rows = rows_of(files);
    for row in &rows {
        let def_ext = extension(&row.definition.path);
        for reference in &row.references {
            let ref_ext = extension(&reference.path);
            assert_eq!(
                def_ext, ref_ext,
                "expected references to stay within language, got {:?} -> {:?}",
                row.definition.path, reference.path
            );
        }
    }
}

#[test]
fn ignores_non_exported_javascript_definitions() {
    let files = vec![
        file("a.js", "function foo() { return 1; }\n"),
        file("b.js", "import { foo } from \"./a.js\";\nfoo();\n"),
    ];
    let rows = rows_of(files);
    assert!(!rows.iter().any(|row| row.definition.name == "foo"), "expected non-exported foo to be ignored");
}

#[test]
fn ignores_nested_python_definitions() {
    let files = vec![file("a.py", "def outer():\n    def inner():\n        return 1\n    return inner()\n")];
    let rows = rows_of(files);
    assert!(!rows.iter().any(|row| row.definition.name == "inner"), "expected nested inner to be ignored");
}

#[test]
fn ties_are_sorted_by_definition_location() {
    let mut files = Vec::new();
    let mut use_lines = String::new();
    for idx in 0..8 {
        let name = format!("symbol_{idx}");
        let path = format!("file_{idx}.py");
        files.push((path.clone(), format!("def {name}():\n    return {idx}\n")));
        use_lines.push_str(&format!("from file_{idx} import {name}\n"));
    }
    use_lines.push('\n');
    for idx in 0..8 {
        use_lines.push_str(&format!("symbol_{idx}()\n"));
    }
    files.push(("use.py".to_string(), use_lines));

    let rows = rows_of(files);
    let mut expected: Vec<&DefinitionRow> = rows.iter().collect();
    expected.sort_by(|a, b| {
        let key_a = (&a.definition.path, a.definition.line, a.definition.column, &a.definition.name);
        let key_b = (&b.definition.path, b.definition.line, b.definition.column, &b.definition.name);
        key_a.cmp(&key_b)
    });
    assert_eq!(
        rows.iter().map(|row| &row.definition.path).collect::<Vec<_>>(),
        expected.iter().map(|row| &row.definition.path).collect::<Vec<_>>(),
        "expected tie-breaker ordering by definition location"
    );
    assert_eq!(rows.len(), 8);
}

#[test]
fn duplicate_names_share_the_name_count() {
    let files = vec![
        file("a.py", "def foo():\n    pass\n\ndef foo():\n    pass\n\ndef bar():\n    pass\n"),
        file("c.py", "from a import foo, bar\n\nfoo()\nbar()\n"),
    ];
    let rows = rows_of(files);
    let foo_rows: Vec<&DefinitionRow> = rows.iter().filter(|row| row.definition.name == "foo").collect();
    let bar_row = rows.iter().find(|row| row.definition.name == "bar").expect("bar row");
    assert_eq!(foo_rows.len(), 2);
    for row in &foo_rows {
        assert_eq!(row.name_count, 2);
        assert_eq!(row.references.iter().filter(|r| r.path == "c.py").count(), 2);
    }
    assert_eq!(bar_row.name_count, 1);
    assert_eq!(bar_row.references.iter().filter(|r| r.path == "c.py").count(), 2);
}

#[test]
fn same_name_in_two_ecosystems_counts_once_each() {
    let files = vec![
        file("a.py", "def add():\n    return 1\n"),
        file("b.py", "add()\n"),
        file("a.rs", "fn add() -> i32 { 1 }\n"),
        file("b.rs", "fn main() { add(); }\n"),
    ];
    let rows = rows_of(files);
    let adds: Vec<&DefinitionRow> = rows.iter().filter(|row| row.definition.name == "add").collect();
    assert_eq!(adds.len(), 2);
    for row in adds {
        assert_eq!(row.name_count, 1);
    }
}

#[test]
fn definition_rows_hold_the_trimmed_line() {
    let files = vec![
        file("a.py", "x = 1\ndef foo():   \r\n    pass\n"),
        file("b.py", "foo()\n"),
    ];
    let rows = rows_of(files);
    let row = rows.iter().find(|row| row.definition.name == "foo").expect("foo row");
    assert_eq!(row.definition_line, "def foo():");
    assert_eq!(row.definition.line, 2);
    assert_eq!(row.definition.column, 5);
}

#[test]
fn references_are_sorted_and_never_the_definition() {
    let files = vec![
        file("z.py", "from a import foo\nfoo()\n"),
        file("a.py", "def foo():\n    pass\n\nfoo()\nfoo()\n"),
        file("m.py", "foo()\n"),
    ];
    let rows = rows_of(files);
    let row = rows.iter().find(|row| row.definition.name == "foo").expect("foo row");
    let keys: Vec<(String, usize, usize)> =
        row.references.iter().map(|r| (r.path.clone(), r.line, r.column)).collect();
    let mut sorted = keys.clone();
    sorted.sort();
    assert_eq!(keys, sorted);
    assert!(row.references.iter().all(|r| !(r.path == row.definition.path && r.line == row.definition.line)));
    assert_eq!(row.references.len(), 5);
}

#[test]
fn unknown_and_unparsable_files_contribute_nothing() {
    assert!(scan_file("notes.txt", "def foo(): pass\n").is_none());
    let result = scan_file("a.py", "def foo():\n    pass\n").expect("python parses");
    assert_eq!(result.definitions.len(), 1);
    assert_eq!(result.definitions[0].name, "foo");
    assert_eq!(result.definition_lines[0], "def foo():");
}

#[test]
fn first_read_error_is_returned() {
    let inputs = vec![
        Ok(file("a.py", "def foo():\n    pass\n")),
        Err(CruxlinesError::ReadFile { path: "b.py".to_string(), message: "denied".to_string() }),
        Err(CruxlinesError::ReadFile { path: "c.py".to_string(), message: "gone".to_string() }),
    ];
    match find_references(inputs) {
        Err(CruxlinesError::ReadFile { path, .. }) => assert_eq!(path, "b.py"),
        other => panic!("unexpected {other:?}"),
    }
}

#[test]
fn edges_resolve_only_within_the_ecosystem() {
    let inputs = vec![Ok(file("a.py", "def add():\n    return 1\n\nadd()\n")), Ok(file("b.rs", "fn add() {}\n"))];
    let scan = find_references(inputs).expect("scan");
    assert_eq!(scan.edges.len(), 1);
    let edge = &scan.edges[0];
    assert_eq!(edge.definition.path, "a.py");
    assert_eq!(edge.usage.path, "a.py");
    assert_eq!(edge.usage.line, 4);
    assert_eq!(scan.definition_lines.len(), 2);
}

#[test]
fn other_languages_yield_definitions() {
    let cases = [
        ("a.c", "struct point { int x; };\nint counter, total;\nint add(int a) { return a; }\n", vec!["point", "counter", "total", "add"]),
        ("a.cpp", "namespace ns { class Widget {}; }\ntemplate <typename T> struct Box {};\n", vec!["ns", "Widget", "Box"]),
        ("a.cs", "namespace App { public class Service {} }\n", vec!["Service"]),
        ("a.go", "package main\nfunc Run() {}\nconst (\n  A = 1\n)\ntype T struct{}\n", vec!["Run", "A", "T"]),
        ("A.java", "public class Main {}\n", vec!["Main"]),
        ("a.php", "<?php\nfunction helper() {}\nconst LIMIT = 3;\n", vec!["helper", "LIMIT"]),
        ("a.tsx", "export const Button = () => null;\nexport interface Props {}\n", vec!["Button", "Props"]),
    ];
    for (path, source, names) in cases {
        let result = scan_file(path, source).expect("parses");
        let found: Vec<&str> = result.definitions.iter().map(|d| d.name.as_str()).collect();
        for name in names {
            assert!(found.contains(&name), "{path}: expected {name} in {found:?}");
        }
    }
}

#[test]
fn two_runs_give_the_same_rows() {
    let files = || {
        vec![
            file("b.py", "from a import foo\nfoo()\nfoo()\n"),
            file("a.py", "def foo():\n    pass\n\ndef bar():\n    foo()\n"),
            file("c.rs", "fn foo() {}\nfn main() { foo(); }\n"),
        ]
    };
    let first = rows_of(files());
    let second = rows_of(files());
    assert_eq!(format!("{first:?}"), format!("{second:?}"));
    assert!(!first.is_empty());
}

#[test]
fn cpp_qualified_names_refer_by_their_last_part() {
    let files = vec![
        file("lib.cpp", "namespace ns {\nint helper() { return 1; }\n}\n"),
        file("main.cpp", "int main() { return ns::helper(); }\n"),
    ];
    let rows = rows_of(files);
    let row = rows.iter().find(|row| row.definition.name == "helper").expect("helper row");
    let cols: Vec<usize> = row.references.iter().filter(|r| r.path == "main.cpp").map(|r| r.column).collect();
    assert!(cols.contains(&21), "qualified use at the start of ns::helper, got {cols:?}");
    assert!(cols.contains(&25), "plain identifier use, got {cols:?}");
}

#[test]
fn locations_count_from_one() {
    let result = scan_file("a.py", "def f():\n    pass\n").expect("python parses");
    assert_eq!(result.definitions[0].line, 1);
    assert_eq!(result.definitions[0].column, 5);
    assert_eq!(result.definitions[0].name, "f");
    assert_eq!(result.references[0].line, 1);
    assert_eq!(result.references[0].column, 5);
}
