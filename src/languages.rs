use vstd::prelude::*;

use crate::text::{last_in, last_index_of, matches_lower, range_matches_lower, chars_of};

verus! {

/// The grammar used to parse a file.
#[derive(Clone, Copy, Debug, PartialEq, Eq, Hash, Structural)]
pub enum Language {
    C,
    Cpp,
    CSharp,
    Go,
    Java,
    Kotlin,
    Php,
    Python,
    JavaScript,
    TypeScript,
    TypeScriptReact,
    Rust,
}

/// A family of languages that share one namespace of symbols.
#[derive(Clone, Copy, Debug, PartialEq, Eq, Hash, Structural)]
pub enum Ecosystem {
    C,
    Dotnet,
    Go,
    Java,
    Python,
    JavaScript,
    Rust,
    Php,
}

/// The final component of a slash-separated path.
pub open spec fn file_name(p: Seq<char>) -> Seq<char> {
    p.subrange(last_index_of(p, '/') + 1, p.len() as int)
}

/// The text after the last dot of the file name, where that dot is not its first character.
pub open spec fn spec_extension(p: Seq<char>) -> Option<Seq<char>> {
    let f = file_name(p);
    let k = last_index_of(f, '.');
    if k <= 0 {
        None
    } else {
        Some(f.subrange(k + 1, f.len() as int))
    }
}

/// The extension table, in order; the first match wins, ignoring ASCII case.
pub open spec fn spec_language_for_extension(e: Seq<char>) -> Option<Language> {
    if matches_lower(e, "c"@) || matches_lower(e, "h"@) {
        Some(Language::C)
    } else if matches_lower(e, "cpp"@) || matches_lower(e, "cc"@) || matches_lower(e, "cxx"@)
        || matches_lower(e, "hpp"@) || matches_lower(e, "hh"@) || matches_lower(e, "hxx"@) {
        Some(Language::Cpp)
    } else if matches_lower(e, "cs"@) {
        Some(Language::CSharp)
    } else if matches_lower(e, "go"@) {
        Some(Language::Go)
    } else if matches_lower(e, "java"@) {
        Some(Language::Java)
    } else if matches_lower(e, "kt"@) || matches_lower(e, "kts"@) {
        Some(Language::Kotlin)
    } else if matches_lower(e, "php"@) {
        Some(Language::Php)
    } else if matches_lower(e, "py"@) {
        Some(Language::Python)
    } else if matches_lower(e, "js"@) || matches_lower(e, "jsx"@) {
        Some(Language::JavaScript)
    } else if matches_lower(e, "ts"@) {
        Some(Language::TypeScript)
    } else if matches_lower(e, "tsx"@) {
        Some(Language::TypeScriptReact)
    } else if matches_lower(e, "rs"@) {
        Some(Language::Rust)
    } else {
        None
    }
}

pub open spec fn spec_language_for_path(p: Seq<char>) -> Option<Language> {
    match spec_extension(p) {
        Some(e) => spec_language_for_extension(e),
        None => None,
    }
}

pub open spec fn spec_ecosystem_for_language(l: Language) -> Ecosystem {
    match l {
        Language::C | Language::Cpp => Ecosystem::C,
        Language::CSharp => Ecosystem::Dotnet,
        Language::Go => Ecosystem::Go,
        Language::Java | Language::Kotlin => Ecosystem::Java,
        Language::Php => Ecosystem::Php,
        Language::Python => Ecosystem::Python,
        Language::JavaScript | Language::TypeScript | Language::TypeScriptReact => Ecosystem::JavaScript,
        Language::Rust => Ecosystem::Rust,
    }
}

/// The ecosystem that a language belongs to.
pub fn ecosystem_for_language(l: Language) -> (r: Ecosystem)
    ensures
        r == spec_ecosystem_for_language(l),
{
    match l {
        Language::C | Language::Cpp => Ecosystem::C,
        Language::CSharp => Ecosystem::Dotnet,
        Language::Go => Ecosystem::Go,
        Language::Java | Language::Kotlin => Ecosystem::Java,
        Language::Php => Ecosystem::Php,
        Language::Python => Ecosystem::Python,
        Language::JavaScript | Language::TypeScript | Language::TypeScriptReact => Ecosystem::JavaScript,
        Language::Rust => Ecosystem::Rust,
    }
}

fn language_for_extension(s: &Vec<char>, lo: usize, hi: usize) -> (r: Option<Language>)
    requires
        lo <= hi <= s@.len(),
    ensures
        r == spec_language_for_extension(s@.subrange(lo as int, hi as int)),
{
    if range_matches_lower(s, lo, hi, "c") || range_matches_lower(s, lo, hi, "h") {
        Some(Language::C)
    } else if range_matches_lower(s, lo, hi, "cpp") || range_matches_lower(s, lo, hi, "cc")
        || range_matches_lower(s, lo, hi, "cxx") || range_matches_lower(s, lo, hi, "hpp")
        || range_matches_lower(s, lo, hi, "hh") || range_matches_lower(s, lo, hi, "hxx") {
        Some(Language::Cpp)
    } else if range_matches_lower(s, lo, hi, "cs") {
        Some(Language::CSharp)
    } else if range_matches_lower(s, lo, hi, "go") {
        Some(Language::Go)
    } else if range_matches_lower(s, lo, hi, "java") {
        Some(Language::Java)
    } else if range_matches_lower(s, lo, hi, "kt") || range_matches_lower(s, lo, hi, "kts") {
        Some(Language::Kotlin)
    } else if range_matches_lower(s, lo, hi, "php") {
        Some(Language::Php)
    } else if range_matches_lower(s, lo, hi, "py") {
        Some(Language::Python)
    } else if range_matches_lower(s, lo, hi, "js") || range_matches_lower(s, lo, hi, "jsx") {
        Some(Language::JavaScript)
    } else if range_matches_lower(s, lo, hi, "ts") {
        Some(Language::TypeScript)
    } else if range_matches_lower(s, lo, hi, "tsx") {
        Some(Language::TypeScriptReact)
    } else if range_matches_lower(s, lo, hi, "rs") {
        Some(Language::Rust)
    } else {
        None
    }
}

/// The language that the path's extension selects, if any.
pub fn language_for_path(path: &str) -> (r: Option<Language>)
    ensures
        r == spec_language_for_path(path@),
{
    let cs = chars_of(path);
    let n = cs.len();
    let start: usize = match last_in(&cs, 0, n, '/') {
        Some(k) => k + 1,
        None => 0,
    };
    proof {
        assert(cs@.subrange(0, n as int) =~= path@);
        crate::text::lemma_last_index_of_bound(path@, '/');
        assert(file_name(path@) =~= cs@.subrange(start as int, n as int));
    }
    match last_in(&cs, start, n, '.') {
        Some(k) => {
            if k == 0 {
                None
            } else {
                proof {
                    crate::text::lemma_last_index_of_bound(file_name(path@), '.');
                    assert(file_name(path@).subrange(k + 1, file_name(path@).len() as int)
                        =~= cs@.subrange(start + k + 1, n as int));
                }
                language_for_extension(&cs, start + k + 1, n)
            }
        },
        None => None,
    }
}

} // verus!
