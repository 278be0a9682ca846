use vstd::prelude::*;

use crate::syntax::{well_formed, SyntaxNode};
use crate::text::str_eq;

verus! {

/// Node `i` exists and has grammar kind `k`.
pub open spec fn kind_is(nodes: Seq<SyntaxNode>, i: int, k: Seq<char>) -> bool {
    0 <= i < nodes.len() && nodes[i].kind@ == k
}

/// The index of the parent of node `i`, or -1.
pub open spec fn parent_of(nodes: Seq<SyntaxNode>, i: int) -> int {
    if 0 <= i < nodes.len() {
        match nodes[i].parent {
            Some(p) => p as int,
            None => -1,
        }
    } else {
        -1
    }
}

/// Node `i` has a parent of kind `k`.
pub open spec fn parent_is(nodes: Seq<SyntaxNode>, i: int, k: Seq<char>) -> bool {
    kind_is(nodes, parent_of(nodes, i), k)
}

/// Node `j` is a child of node `i` under field `f`.
pub open spec fn field_child_at(nodes: Seq<SyntaxNode>, i: int, j: int, f: Seq<char>) -> bool {
    0 <= j < nodes.len() && parent_of(nodes, j) == i && match nodes[j].field {
        Some(s) => s@ == f,
        None => false,
    }
}

/// The first child of node `i` under field `f` among indices `j` up to its subtree's end, or -1.
pub open spec fn field_child_from(nodes: Seq<SyntaxNode>, i: int, f: Seq<char>, j: int) -> int
    decreases nodes.len() - j,
{
    if j < 0 || j >= nodes.len() || !(0 <= i < nodes.len()) || j >= nodes[i].end {
        -1
    } else if field_child_at(nodes, i, j, f) {
        j
    } else {
        field_child_from(nodes, i, f, j + 1)
    }
}

/// The first child of node `i` under field `f`, or -1.
pub open spec fn field_child(nodes: Seq<SyntaxNode>, i: int, f: Seq<char>) -> int {
    field_child_from(nodes, i, f, i + 1)
}

pub proof fn lemma_field_child_from(nodes: Seq<SyntaxNode>, i: int, f: Seq<char>, j: int)
    ensures
        field_child_from(nodes, i, f, j) == -1 || (j <= field_child_from(nodes, i, f, j)
            < nodes.len() && field_child_at(nodes, i, field_child_from(nodes, i, f, j), f)),
    decreases nodes.len() - j,
{
    if !(j < 0 || j >= nodes.len() || !(0 <= i < nodes.len()) || j >= nodes[i].end)
        && !field_child_at(nodes, i, j, f) {
        lemma_field_child_from(nodes, i, f, j + 1);
    }
}

/// Whether node `i` exists and has grammar kind `k`.
pub fn is_kind(nodes: &Vec<SyntaxNode>, i: usize, k: &str) -> (r: bool)
    ensures
        r == kind_is(nodes@, i as int, k@),
{
    i < nodes.len() && str_eq(nodes[i].kind.as_str(), k)
}

/// The parent of node `i`, if any.
pub fn parent(nodes: &Vec<SyntaxNode>, i: usize) -> (r: Option<usize>)
    requires
        well_formed(nodes@),
    ensures
        match r {
            Some(p) => p == parent_of(nodes@, i as int) && p < i,
            None => parent_of(nodes@, i as int) == -1,
        },
{
    if i < nodes.len() {
        let p = nodes[i].parent;
        proof {
            assert(nodes@[i as int].parent matches Some(q) ==> q < i);
        }
        p
    } else {
        None
    }
}

/// Whether the parent of node `i` has grammar kind `k`.
pub fn parent_kind(nodes: &Vec<SyntaxNode>, i: usize, k: &str) -> (r: bool)
    requires
        well_formed(nodes@),
    ensures
        r == parent_is(nodes@, i as int, k@),
{
    match parent(nodes, i) {
        Some(p) => is_kind(nodes, p, k),
        None => false,
    }
}

/// The first child of node `i` under field `f`.
pub fn child_by_field(nodes: &Vec<SyntaxNode>, i: usize, f: &str) -> (r: Option<usize>)
    requires
        well_formed(nodes@),
    ensures
        match r {
            Some(j) => j == field_child(nodes@, i as int, f@) && i < j < nodes@.len(),
            None => field_child(nodes@, i as int, f@) == -1,
        },
{
    if i >= nodes.len() {
        return None;
    }
    let end = nodes[i].end;
    proof {
        assert(nodes@[i as int].parent matches Some(q) ==> q < i);
    }
    let mut j: usize = i + 1;
    while j < end
        invariant
            well_formed(nodes@),
            i < nodes@.len(),
            end == nodes@[i as int].end,
            end <= nodes@.len(),
            i + 1 <= j,
            field_child(nodes@, i as int, f@) == field_child_from(nodes@, i as int, f@, j as int),
        decreases end - j,
    {
        let hit = match nodes[j].parent {
            Some(p) => p == i && match &nodes[j].field {
                Some(s) => str_eq(s.as_str(), f),
                None => false,
            },
            None => false,
        };
        if hit {
            return Some(j);
        }
        j = j + 1;
    }
    None
}

} // verus!
