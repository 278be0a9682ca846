use vstd::prelude::*;

pub mod text;
pub mod languages;
pub mod syntax;
pub mod nodes;
pub mod extract;
pub mod find_references;
pub mod intern;
pub mod order;
pub mod analysis;
pub mod graph;
pub mod laws;
pub mod cache;
pub mod timing;

pub use find_references::{CliIoError, CruxlinesError, Location, ReferenceEdge, ReferenceScan};
pub use languages::{Ecosystem, Language};
pub use timing::{is_enabled, TimingGuard};

verus! {

/// Whether the path names a file in one of the supported languages.
pub fn is_supported_path(path: &str) -> (r: bool)
    ensures
        r == languages::spec_language_for_path(path@).is_some(),
{
    languages::language_for_path(path).is_some()
}

/// The ecosystem of the language that the path's extension selects.
pub fn ecosystem_for_path(path: &str) -> (r: Option<Ecosystem>)
    ensures
        r == match languages::spec_language_for_path(path@) {
            Some(l) => Some(languages::spec_ecosystem_for_language(l)),
            None => None::<Ecosystem>,
        },
{
    match languages::language_for_path(path) {
        Some(l) => Some(languages::ecosystem_for_language(l)),
        None => None,
    }
}

} // verus!
