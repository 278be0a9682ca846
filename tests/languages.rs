use cruxlines::languages::{ecosystem_for_language, language_for_path, Language};
use cruxlines::{ecosystem_for_path, is_supported_path, Ecosystem};

#[test]
fn format_router_recognizes_python_extension() {
    let lang = language_for_path("file.py");
    assert_eq!(lang, Some(Language::Python));
}

#[test]
fn format_router_recognizes_javascript_extension() {
    let lang = language_for_path("file.js");
    assert_eq!(lang, Some(Language::JavaScript));
}

#[test]
fn format_router_ignores_unknown_extensions() {
    let lang = language_for_path("file.txt");
    assert_eq!(lang, None);
}

#[test]
fn format_router_recognizes_rust_extension() {
    let lang = language_for_path("file.rs");
    assert_eq!(lang, Some(Language::Rust));
}

#[test]
fn mod_recognizes_python_extension() {
    let lang = language_for_path("file.py");
    assert_eq!(lang, Some(Language::Python));
}

#[test]
fn mod_recognizes_javascript_extension() {
    let lang = language_for_path("file.js");
    assert_eq!(lang, Some(Language::JavaScript));
}

#[test]
fn recognizes_jsx_extension() {
    let lang = language_for_path("file.jsx");
    assert_eq!(lang, Some(Language::JavaScript));
}

#[test]
fn recognizes_typescript_extension() {
    let lang = language_for_path("file.ts");
    assert_eq!(lang, Some(Language::TypeScript));
}

#[test]
fn recognizes_tsx_extension() {
    let lang = language_for_path("file.tsx");
    assert_eq!(lang, Some(Language::TypeScriptReact));
}

#[test]
fn mod_recognizes_rust_extension() {
    let lang = language_for_path("file.rs");
    assert_eq!(lang, Some(Language::Rust));
}

#[test]
fn recognizes_java_extension() {
    let lang = language_for_path("file.java");
    assert_eq!(lang, Some(Language::Java));
}

#[test]
fn recognizes_kotlin_extension() {
    let lang = language_for_path("file.kt");
    assert_eq!(lang, Some(Language::Kotlin));
}

#[test]
fn recognizes_kotlin_script_extension() {
    let lang = language_for_path("file.kts");
    assert_eq!(lang, Some(Language::Kotlin));
}

#[test]
fn mod_ignores_unknown_extensions() {
    let lang = language_for_path("file.txt");
    assert_eq!(lang, None);
}

#[test]
fn extension_table_covers_every_language() {
    let cases = [
        ("a.c", Language::C),
        ("a.h", Language::C),
        ("a.cpp", Language::Cpp),
        ("a.cc", Language::Cpp),
        ("a.cxx", Language::Cpp),
        ("a.hpp", Language::Cpp),
        ("a.hh", Language::Cpp),
        ("a.hxx", Language::Cpp),
        ("a.cs", Language::CSharp),
        ("a.go", Language::Go),
        ("a.php", Language::Php),
    ];
    for (path, lang) in cases {
        assert_eq!(language_for_path(path), Some(lang), "{path}");
    }
}

#[test]
fn extension_match_ignores_case() {
    assert_eq!(language_for_path("src/Main.PY"), Some(Language::Python));
    assert_eq!(language_for_path("Lib.Rs"), Some(Language::Rust));
}

#[test]
fn extension_is_taken_from_the_file_name() {
    assert_eq!(language_for_path("dir.py/README"), None);
    assert_eq!(language_for_path(".py"), None);
    assert_eq!(language_for_path("a/b.tar.rs"), Some(Language::Rust));
    assert_eq!(language_for_path("noext"), None);
    assert_eq!(language_for_path(""), None);
}

#[test]
fn ecosystems_group_languages() {
    assert_eq!(ecosystem_for_language(Language::Cpp), Ecosystem::C);
    assert_eq!(ecosystem_for_language(Language::Kotlin), Ecosystem::Java);
    assert_eq!(ecosystem_for_language(Language::TypeScriptReact), Ecosystem::JavaScript);
    assert_eq!(ecosystem_for_language(Language::CSharp), Ecosystem::Dotnet);
    assert_eq!(ecosystem_for_path("x/y.h"), Some(Ecosystem::C));
    assert_eq!(ecosystem_for_path("x/y.txt"), None);
    assert!(is_supported_path("main.go"));
    assert!(!is_supported_path("notes.md"));
}

#[test]
fn timing_follows_the_variable() {
    assert!(cruxlines::is_enabled(&Some(String::new())));
    assert!(cruxlines::is_enabled(&Some("1".to_string())));
    assert!(!cruxlines::is_enabled(&None));
    let guard = cruxlines::TimingGuard::new("scan");
    assert_eq!(guard.label, "scan");
}
