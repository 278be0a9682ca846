use vstd::prelude::*;

use lasso::Key;

verus! {

#[verifier::external_type_specification]
#[verifier::external_body]
#[verifier::reject_recursive_types(K)]
#[verifier::reject_recursive_types(S)]
pub struct ExRodeo<K, S>(lasso::Rodeo<K, S>);

#[verifier::external_type_specification]
#[verifier::external_body]
pub struct ExSpur(lasso::Spur);

/// The strings an interner holds, each at the index that is its key.
pub uninterp spec fn interned(r: lasso::Rodeo) -> Seq<Seq<char>>;

/// Whether an interner's strings are pairwise distinct.
pub open spec fn distinct(s: Seq<Seq<char>>) -> bool {
    forall|a: int, b: int| 0 <= a < b < s.len() ==> s[a] != s[b]
}

/// Relies on `lasso::Rodeo::new`: an interner that holds no string.
#[verifier::external_body]
pub fn new_interner() -> (r: lasso::Rodeo)
    ensures
        interned(r) == Seq::<Seq<char>>::empty(),
{
    lasso::Rodeo::new()
}

/// Relies on `lasso::Rodeo::get_or_intern` and `Key::into_usize` for its `Spur` keys: a
/// string already held keeps its key; a new one is appended and its key is the number of
/// strings held before. It panics only once `u32::MAX` strings are held.
#[verifier::external_body]
pub fn intern(r: &mut lasso::Rodeo, s: &str) -> (k: usize)
    requires
        interned(*old(r)).len() < u32::MAX,
    ensures
        interned(*old(r)).contains(s@) ==> interned(*final(r)) == interned(*old(r)) && k
            < interned(*old(r)).len() && interned(*old(r))[k as int] == s@,
        !interned(*old(r)).contains(s@) ==> interned(*final(r)) == interned(*old(r)).push(s@)
            && k == interned(*old(r)).len(),
{
    r.get_or_intern(s).into_usize()
}

/// Interning keeps the strings distinct.
pub proof fn lemma_intern_distinct(before: Seq<Seq<char>>, after: Seq<Seq<char>>, s: Seq<char>)
    requires
        distinct(before),
        before.contains(s) ==> after == before,
        !before.contains(s) ==> after == before.push(s),
    ensures
        distinct(after),
{
    if !before.contains(s) {
        assert forall|a: int, b: int| 0 <= a < b < after.len() implies after[a] != after[b] by {
            if b == before.len() {
                assert(after[a] == before[a]);
            }
        }
    }
}

} // verus!
