use vstd::prelude::*;

use crate::find_references::{Location, LocationView};
use crate::text::chars_of;

verus! {

broadcast use vstd::seq_lib::group_to_multiset_ensures;

/// Lexicographic order on strings, by character.
pub open spec fn text_lt(a: Seq<char>, b: Seq<char>) -> bool
    decreases a.len(),
{
    if a.len() == 0 {
        b.len() > 0
    } else if b.len() == 0 {
        false
    } else if a[0] != b[0] {
        a[0] < b[0]
    } else {
        text_lt(a.drop_first(), b.drop_first())
    }
}

pub proof fn lemma_text_total(a: Seq<char>, b: Seq<char>)
    ensures
        text_lt(a, b) || text_lt(b, a) || a == b,
        !(text_lt(a, b) && text_lt(b, a)),
    decreases a.len(),
{
    if a.len() > 0 && b.len() > 0 && a[0] == b[0] {
        lemma_text_total(a.drop_first(), b.drop_first());
        if a.drop_first() == b.drop_first() {
            assert(a =~= seq![a[0]] + a.drop_first());
            assert(b =~= seq![b[0]] + b.drop_first());
        }
    } else if a.len() == 0 && b.len() == 0 {
        assert(a =~= b);
    } else if a.len() > 0 && b.len() > 0 {
    }
}

pub proof fn lemma_text_transitive(a: Seq<char>, b: Seq<char>, c: Seq<char>)
    requires
        text_lt(a, b),
        text_lt(b, c),
    ensures
        text_lt(a, c),
    decreases a.len(),
{
    if a.len() > 0 && a[0] == b[0] && b[0] == c[0] {
        lemma_text_transitive(a.drop_first(), b.drop_first(), c.drop_first());
    }
}

/// Locations ordered by path, then line, then column, then name.
pub open spec fn location_lt(a: LocationView, b: LocationView) -> bool {
    if a.0 != b.0 {
        text_lt(a.0, b.0)
    } else if a.1 != b.1 {
        a.1 < b.1
    } else if a.2 != b.2 {
        a.2 < b.2
    } else {
        text_lt(a.3, b.3)
    }
}

pub open spec fn location_le(a: LocationView, b: LocationView) -> bool {
    location_lt(a, b) || a == b
}

/// Any two locations are ordered one way or the other.
pub proof fn lemma_location_total(a: LocationView, b: LocationView)
    ensures
        location_le(a, b) || location_le(b, a),
        !(location_lt(a, b) && location_lt(b, a)),
{
    lemma_text_total(a.0, b.0);
    lemma_text_total(a.3, b.3);
}

/// The order on locations is transitive.
pub proof fn lemma_location_transitive(a: LocationView, b: LocationView, c: LocationView)
    requires
        location_lt(a, b),
        location_lt(b, c),
    ensures
        location_lt(a, c),
{
    lemma_text_total(a.0, b.0);
    lemma_text_total(b.0, c.0);
    lemma_text_total(a.0, c.0);
    lemma_text_total(a.3, c.3);
    if a.0 != b.0 && b.0 != c.0 {
        lemma_text_transitive(a.0, b.0, c.0);
    }
    if a.0 == b.0 && b.0 == c.0 && a.1 == b.1 && b.1 == c.1 && a.2 == b.2 && b.2 == c.2 {
        lemma_text_transitive(a.3, b.3, c.3);
    }
}

/// Each element is at most every later one.
pub open spec fn sorted_all(s: Seq<LocationView>) -> bool {
    forall|i: int, j: int| 0 <= i < j < s.len() ==> location_le(#[trigger] s[i], #[trigger] s[j])
}

/// Each element is at most the next.
pub open spec fn sorted(s: Seq<LocationView>) -> bool {
    forall|i: int| 0 <= i < s.len() - 1 ==> location_le(#[trigger] s[i], s[i + 1])
}

/// The characters of a location's path and name, for comparing.
pub(crate) struct Key {
    pub(crate) path: Vec<char>,
    pub(crate) line: usize,
    pub(crate) column: usize,
    pub(crate) name: Vec<char>,
}

pub(crate) open spec fn key_view(k: Key) -> LocationView {
    (k.path@, k.line, k.column, k.name@)
}

pub(crate) fn key_of(l: &Location) -> (k: Key)
    ensures
        key_view(k) == l@,
{
    Key { path: chars_of(l.path.as_str()), line: l.line, column: l.column, name: chars_of(l.name.as_str()) }
}

fn chars_lt(a: &Vec<char>, b: &Vec<char>) -> (r: bool)
    ensures
        r == text_lt(a@, b@),
{
    let mut i: usize = 0;
    assert(a@.subrange(0, a@.len() as int) =~= a@);
    assert(b@.subrange(0, b@.len() as int) =~= b@);
    while i < a.len() && i < b.len() && a[i] == b[i]
        invariant
            i <= a@.len(),
            i <= b@.len(),
            text_lt(a@, b@) == text_lt(a@.subrange(i as int, a@.len() as int), b@.subrange(i as int, b@.len() as int)),
        decreases a@.len() - i,
    {
        let ghost sa = a@.subrange(i as int, a@.len() as int);
        let ghost sb = b@.subrange(i as int, b@.len() as int);
        assert(sa.drop_first() =~= a@.subrange(i + 1, a@.len() as int));
        assert(sb.drop_first() =~= b@.subrange(i + 1, b@.len() as int));
        i = i + 1;
    }
    let ghost sa = a@.subrange(i as int, a@.len() as int);
    let ghost sb = b@.subrange(i as int, b@.len() as int);
    if i == a.len() {
        i < b.len()
    } else if i == b.len() {
        false
    } else {
        assert(sa[0] == a@[i as int] && sb[0] == b@[i as int]);
        a[i] < b[i]
    }
}

pub(crate) fn key_lt(a: &Key, b: &Key) -> (r: bool)
    ensures
        r == location_lt(key_view(*a), key_view(*b)),
{
    let pa = chars_lt(&a.path, &b.path);
    let pb = chars_lt(&b.path, &a.path);
    proof {
        lemma_text_total(a.path@, b.path@);
    }
    if pa || pb {
        return pa;
    }
    if a.line != b.line {
        return a.line < b.line;
    }
    if a.column != b.column {
        return a.column < b.column;
    }
    chars_lt(&a.name, &b.name)
}

/// The plain values of a list of locations.
pub open spec fn views_of(v: Seq<Location>) -> Seq<LocationView> {
    v.map_values(|l: Location| l@)
}

/// The locations in ascending order of path, line, column and name: each is placed by
/// binary search among those placed before it.
pub fn sort_locations(v: &Vec<Location>) -> (r: Vec<Location>)
    ensures
        views_of(r@).to_multiset() == views_of(v@).to_multiset(),
        sorted(views_of(r@)),
{
    let mut out: Vec<Location> = Vec::new();
    let mut keys: Vec<Key> = Vec::new();
    let mut i: usize = 0;
    while i < v.len()
        invariant
            i <= v@.len(),
            keys@.len() == out@.len(),
            forall|m: int| 0 <= m < out@.len() ==> key_view(#[trigger] keys@[m]) == out@[m]@,
            views_of(out@).to_multiset() == views_of(v@.subrange(0, i as int)).to_multiset(),
            sorted_all(views_of(out@)),
        decreases v@.len() - i,
    {
        let x = v[i].duplicate();
        let kx = key_of(&x);
        let ghost s = views_of(out@);
        let mut lo: usize = 0;
        let mut hi: usize = out.len();
        while lo < hi
            invariant
                lo <= hi <= out@.len(),
                s == views_of(out@),
                keys@.len() == out@.len(),
                forall|m: int| 0 <= m < out@.len() ==> key_view(#[trigger] keys@[m]) == out@[m]@,
                key_view(kx) == x@,
                sorted_all(s),
                forall|a: int| 0 <= a < lo ==> !location_lt(x@, #[trigger] s[a]),
                forall|a: int| hi <= a < s.len() ==> location_lt(x@, #[trigger] s[a]),
            decreases hi - lo,
        {
            let mid = lo + (hi - lo) / 2;
            assert(s[mid as int] == out@[mid as int]@);
            if key_lt(&kx, &keys[mid]) {
                proof {
                    assert forall|a: int| mid <= a < s.len() implies location_lt(x@, #[trigger] s[a]) by {
                        if a > mid {
                            assert(location_le(s[mid as int], s[a]));
                            if s[mid as int] != s[a] {
                                lemma_location_transitive(x@, s[mid as int], s[a]);
                            }
                        }
                    }
                }
                hi = mid;
            } else {
                proof {
                    assert forall|a: int| 0 <= a < mid + 1 implies !location_lt(x@, #[trigger] s[a]) by {
                        if a < mid && location_lt(x@, s[a]) {
                            assert(location_le(s[a], s[mid as int]));
                            if s[a] != s[mid as int] {
                                lemma_location_transitive(x@, s[a], s[mid as int]);
                            }
                        }
                    }
                }
                lo = mid + 1;
            }
        }
        let j = lo;
        out.insert(j, x);
        keys.insert(j, kx);
        proof {
            let after = views_of(out@);
            assert(after =~= s.insert(j as int, x@));
            vstd::seq_lib::to_multiset_insert(s, j as int, x@);
            let vi = views_of(v@.subrange(0, i as int));
            assert(views_of(v@.subrange(0, i + 1)) =~= vi.push(x@));
            vstd::seq_lib::to_multiset_build(vi, x@);
            assert forall|p: int, q: int| 0 <= p < q < after.len() implies location_le(#[trigger] after[p], #[trigger] after[q]) by {
                let pp = if p < j { p } else if p == j { -1 } else { p - 1 };
                let qq = if q < j { q } else if q == j { -1 } else { q - 1 };
                if p == j {
                    assert(after[p] == x@ && after[q] == s[qq]);
                    assert(location_lt(x@, s[qq]));
                } else if q == j {
                    assert(after[p] == s[pp] && after[q] == x@);
                    assert(!location_lt(x@, s[pp]));
                    lemma_location_total(x@, s[pp]);
                } else {
                    assert(after[p] == s[pp] && after[q] == s[qq]);
                }
            }
            assert forall|m: int| 0 <= m < out@.len() implies key_view(#[trigger] keys@[m]) == out@[m]@ by {
                if m < j {
                } else if m > j {
                }
            }
        }
        i = i + 1;
    }
    proof {
        assert(v@.subrange(0, v@.len() as int) =~= v@);
        let sv = views_of(out@);
        assert forall|k: int| 0 <= k < sv.len() - 1 implies location_le(#[trigger] sv[k], sv[k + 1]) by {
            assert(location_le(sv[k], sv[k + 1]));
        }
    }
    out
}

} // verus!
