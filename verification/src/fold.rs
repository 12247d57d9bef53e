//! Duplicate-subtree folding: a leaf whose label carries the duplicate
//! marker refers to an earlier fully-expanded subtree. Folding is a pure
//! lookup layered over the arena — it never mutates the located node and
//! never copies its subtree; the marker node and the original coexist.

use vstd::prelude::*;

use crate::arena::Arena;
use crate::arena::NodeModel;
use crate::arena::handles_model;
use crate::classify::Config;

verus! {

/// The fixed duplicate-marker suffix, ` (*)`.
pub open spec fn marker_model() -> Seq<u8> {
    seq![32u8, 40u8, 42u8, 41u8]
}

/// Whether `label` ends with the duplicate marker.
pub open spec fn has_marker(label: Seq<u8>) -> bool {
    label.len() >= 4 && label.subrange(label.len() - 4, label.len() as int) == marker_model()
}

/// `label` with the duplicate marker removed.
pub open spec fn stripped_label(label: Seq<u8>) -> Seq<u8> {
    label.subrange(0, label.len() - 4)
}

/// The first handle at or after `from` whose node's label is `label`.
pub open spec fn first_label_match(a: Seq<NodeModel>, label: Seq<u8>, from: int) -> Option<int>
    decreases a.len() - from,
{
    if from < 0 || from >= a.len() {
        None
    } else if a[from].label == label {
        Some(from)
    } else {
        first_label_match(a, label, from + 1)
    }
}

proof fn lemma_first_label_match_range(a: Seq<NodeModel>, label: Seq<u8>, from: int)
    ensures
        first_label_match(a, label, from) matches Some(t) ==> from <= t < a.len() && a[t].label
            == label,
    decreases a.len() - from,
{
    if 0 <= from < a.len() && a[from].label != label {
        lemma_first_label_match_range(a, label, from + 1);
    }
}

/// The node whose subtree a duplicate-marker leaf refers to: defined (when
/// folding is on) for a childless node whose label ends with the marker and
/// whose stripped label names some node's label exactly; the earliest such
/// node, in creation order, is chosen.
pub open spec fn fold_target_model(a: Seq<NodeModel>, fold_on: bool, n: int) -> Option<int> {
    if fold_on && 0 <= n < a.len() && a[n].children.len() == 0 && has_marker(a[n].label) {
        first_label_match(a, stripped_label(a[n].label), 0)
    } else {
        None
    }
}

/// The child list a display collaborator should show under `n`: the node's
/// own children, or — for a duplicate-marker leaf with a located original —
/// the original's children, shared, never copied.
pub open spec fn resolve_children_model(a: Seq<NodeModel>, fold_on: bool, n: int) -> Seq<int> {
    match fold_target_model(a, fold_on, n) {
        Some(t) => a[t].children,
        None => a[n].children,
    }
}

/// Whether the byte vectors hold the same bytes.
fn bytes_eq(a: &Vec<u8>, b: &Vec<u8>) -> (r: bool)
    ensures
        r == (a@ == b@),
{
    if a.len() != b.len() {
        proof {
            assert(a@ != b@);
        }
        return false;
    }
    let n = a.len();
    let mut i: usize = 0;
    while i < n
        invariant
            i <= n,
            n == a@.len() == b@.len(),
            forall|j: int| 0 <= j < i ==> a@[j] == b@[j],
        decreases n - i,
    {
        if a[i] != b[i] {
            proof {
                assert(a@[i as int] != b@[i as int]);
            }
            return false;
        }
        i += 1;
    }
    proof {
        assert(a@ =~= b@);
    }
    true
}

/// Whether `label` ends with the duplicate marker ` (*)`.
fn label_has_marker(label: &Vec<u8>) -> (r: bool)
    ensures
        r == has_marker(label@),
{
    let n = label.len();
    if n < 4 {
        return false;
    }
    let r = label[n - 4] == 32 && label[n - 3] == 40 && label[n - 2] == 42 && label[n - 1] == 41;
    proof {
        let tail = label@.subrange(label@.len() - 4, label@.len() as int);
        assert(tail.len() == 4);
        assert(tail[0] == label@[label@.len() - 4]);
        assert(tail[1] == label@[label@.len() - 3]);
        assert(tail[2] == label@[label@.len() - 2]);
        assert(tail[3] == label@[label@.len() - 1]);
        if r {
            assert(tail =~= marker_model());
        } else {
            assert(tail != marker_model());
        }
    }
    r
}

/// Locates the original subtree a duplicate-marker leaf refers to, if any.
pub fn fold_target(arena: &Arena, cfg: &Config, handle: usize) -> (r: Option<usize>)
    requires
        handle < arena@.len(),
    ensures
        match r {
            Some(t) => fold_target_model(arena@, cfg@.fold_duplicates, handle as int) == Some(
                t as int,
            ) && t < arena@.len(),
            None => fold_target_model(arena@, cfg@.fold_duplicates, handle as int) is None,
        },
{
    if !cfg.fold_duplicates {
        return None;
    }
    let kids = arena.child_handles(handle);
    if kids.len() > 0 {
        proof {
            assert(arena@[handle as int].children.len() > 0);
        }
        return None;
    }
    proof {
        assert(arena@[handle as int].children.len() == 0);
    }
    let label = arena.label(handle);
    if !label_has_marker(label) {
        return None;
    }
    let n = label.len();
    let candidate = vstd::slice::slice_to_vec(
        vstd::slice::slice_subrange(label.as_slice(), 0, n - 4),
    );
    proof {
        assert(candidate@ == stripped_label(arena@[handle as int].label));
    }
    let count = arena.len();
    let mut j: usize = 0;
    while j < count
        invariant
            j <= count,
            count == arena@.len(),
            handle < arena@.len(),
            cfg@.fold_duplicates,
            arena@[handle as int].children.len() == 0,
            has_marker(arena@[handle as int].label),
            candidate@ == stripped_label(arena@[handle as int].label),
            forall|w: int| 0 <= w < j ==> arena@[w].label != candidate@,
            first_label_match(arena@, candidate@, 0) == first_label_match(
                arena@,
                candidate@,
                j as int,
            ),
        decreases count - j,
    {
        if bytes_eq(arena.label(j), &candidate) {
            proof {
                assert(arena@[j as int].label == candidate@);
                assert(first_label_match(arena@, candidate@, j as int) == Some(j as int));
                assert(fold_target_model(arena@, cfg@.fold_duplicates, handle as int) == Some(
                    j as int,
                ));
            }
            return Some(j);
        }
        j += 1;
    }
    None
}

/// Copies a vector of handles.
fn copy_handles(v: &Vec<usize>) -> (r: Vec<usize>)
    ensures
        r@ == v@,
{
    vstd::slice::slice_to_vec(v.as_slice())
}

/// The ordered children to show under `handle`: its own, or — for a
/// duplicate-marker leaf whose stripped label names an earlier node — that
/// node's children, shared between both places. The arena itself is read,
/// never changed.
pub fn resolve_children(arena: &Arena, cfg: &Config, handle: usize) -> (r: Vec<usize>)
    requires
        handle < arena@.len(),
    ensures
        handles_model(r@) == resolve_children_model(arena@, cfg@.fold_duplicates, handle as int),
{
    match fold_target(arena, cfg, handle) {
        Some(t) => copy_handles(arena.child_handles(t)),
        None => copy_handles(arena.child_handles(handle)),
    }
}

} // verus!
