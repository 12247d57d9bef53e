//! Depth-first re-serialization of a built tree, and the round-trip law:
//! feeding the serialized lines back to the builder reproduces a tree with
//! the same serialization — an isomorphic tree.
//!
//! Serialization works at the classified level: one entry per non-root node
//! in preorder, anchored at its parent's depth and registered at its own
//! depth, preceded by a heading entry carrying the root's label.

use vstd::prelude::*;

use crate::arena::NodeModel;
use crate::arena::arena_wf;
use crate::builder::BuildState;
use crate::builder::LineEntry;
use crate::builder::build_model;
use crate::builder::build_step;
use crate::builder::initial_state;
use crate::builder::lemma_step_inv;
use crate::builder::state_inv;
use crate::builder::trim_model;

verus! {

/// The depth of node `n`: 0 for the root, one more than its parent's
/// otherwise (guarded so the definition is total; under `arena_wf` the
/// guard always holds for non-root nodes).
pub open spec fn node_depth(a: Seq<NodeModel>, n: int) -> int
    decreases n,
{
    if 0 < n < a.len() && 0 <= a[n].parent->Some_0 < n {
        node_depth(a, a[n].parent->Some_0) + 1
    } else {
        0
    }
}

/// The serialized entry for non-root node `c`: its label as the text,
/// anchored at its parent's depth, registered at its own depth.
pub open spec fn entry_for(a: Seq<NodeModel>, c: int) -> LineEntry {
    LineEntry {
        raw: a[c].label,
        class: Some((node_depth(a, c) - 1, node_depth(a, c), a[c].label)),
    }
}

/// The serialized entries for the subtrees of children `j..` of node `x`,
/// depth-first: each child's entry, then its subtree, then its next
/// sibling.
pub open spec fn block_kids(a: Seq<NodeModel>, x: int, j: int) -> Seq<LineEntry>
    decreases a.len() - x, a[x].children.len() - j,
{
    if 0 <= x < a.len() && 0 <= j < a[x].children.len() && x < a[x].children[j]
        && a[x].children[j] < a.len() {
        let c = a[x].children[j];
        seq![entry_for(a, c)] + block_kids(a, c, 0) + block_kids(a, x, j + 1)
    } else {
        Seq::empty()
    }
}

/// The whole serialization: a heading entry carrying the root's label, then
/// the root's subtrees depth-first.
pub open spec fn serialized(a: Seq<NodeModel>) -> Seq<LineEntry> {
    seq![LineEntry { raw: a[0].label, class: None }] + block_kids(a, 0, 0)
}

/// Folds `entries` into `st`, the first entry standing at input index
/// `idx`.
pub open spec fn run_from(heading: bool, st: BuildState, entries: Seq<LineEntry>, idx: int) -> BuildState
    decreases entries.len(),
{
    if entries.len() <= 0 {
        st
    } else {
        run_from(heading, build_step(heading, st, idx, entries[0]), entries.drop_first(), idx + 1)
    }
}

proof fn lemma_run_append(h: bool, st: BuildState, e1: Seq<LineEntry>, e2: Seq<LineEntry>, i0: int)
    ensures
        run_from(h, st, e1 + e2, i0) == run_from(h, run_from(h, st, e1, i0), e2, i0 + e1.len()),
    decreases e1.len(),
{
    if e1.len() == 0 {
        assert(e1 + e2 =~= e2);
    } else {
        assert((e1 + e2)[0] == e1[0]);
        assert((e1 + e2).drop_first() =~= e1.drop_first() + e2);
        lemma_run_append(h, build_step(h, st, i0, e1[0]), e1.drop_first(), e2, i0 + 1);
    }
}

proof fn lemma_build_is_run(h: bool, entries: Seq<LineEntry>, base: int, n: int)
    requires
        0 <= n <= entries.len(),
    ensures
        build_model(h, entries, base, n) == run_from(h, initial_state(), entries.subrange(0, n), base),
    decreases n,
{
    if n == 0 {
        assert(entries.subrange(0, 0) =~= Seq::<LineEntry>::empty());
    } else {
        lemma_build_is_run(h, entries, base, n - 1);
        let e1 = entries.subrange(0, n - 1);
        let e2 = seq![entries[n - 1]];
        assert(entries.subrange(0, n) =~= e1 + e2);
        lemma_run_append(h, initial_state(), e1, e2, base);
        let st = run_from(h, initial_state(), e1, base);
        assert(e2.drop_first() =~= Seq::<LineEntry>::empty());
        let st1 = build_step(h, st, base + n - 1, e2[0]);
        assert(run_from(h, st1, e2.drop_first(), base + n) == st1);
        assert(run_from(h, st, e2, base + n - 1) == st1);
    }
}

proof fn lemma_depth_frame(b1: Seq<NodeModel>, b2: Seq<NodeModel>, y: int)
    requires
        b1.len() <= b2.len(),
        0 <= y < b1.len(),
        forall|i: int| 0 <= i < b1.len() ==> #[trigger] b2[i].parent == b1[i].parent,
        arena_wf(b1),
    ensures
        node_depth(b2, y) == node_depth(b1, y),
    decreases y,
{
    if 0 < y {
        let p = b1[y].parent->Some_0;
        assert(0 <= p < y);
        lemma_depth_frame(b1, b2, p);
    }
}

proof fn lemma_block_frame(b1: Seq<NodeModel>, b2: Seq<NodeModel>, y: int, j: int)
    requires
        b1.len() <= b2.len(),
        0 <= y < b1.len(),
        0 <= j,
        arena_wf(b1),
        forall|i: int| y <= i < b1.len() ==> #[trigger] b2[i] == b1[i],
        forall|i: int| 0 <= i < b1.len() ==> #[trigger] b2[i].parent == b1[i].parent,
    ensures
        block_kids(b2, y, j) == block_kids(b1, y, j),
    decreases b1.len() - y, b1[y].children.len() - j,
{
    if j < b1[y].children.len() {
        let c = b1[y].children[j];
        assert(y < c < b1.len());
        assert(b2[y] == b1[y]);
        assert(b2[c] == b1[c]);
        lemma_depth_frame(b1, b2, c);
        assert(entry_for(b2, c) == entry_for(b1, c));
        lemma_block_frame(b1, b2, c, 0);
        lemma_block_frame(b1, b2, y, j + 1);
        assert(block_kids(b2, y, j) == seq![entry_for(b2, c)] + block_kids(b2, c, 0)
            + block_kids(b2, y, j + 1));
    } else {
        assert(block_kids(b1, y, j) =~= Seq::<LineEntry>::empty());
        assert(block_kids(b2, y, j) =~= Seq::<LineEntry>::empty());
    }
}

/// Replaying the serialization of children `j..` of `x` from a sound state
/// in which `x`'s copy `q` is registered at `x`'s depth appends one copy of
/// each subtree under `q`, touches no other existing node, registers no
/// column at or below `x`'s depth, and reproduces the serialization.
proof fn lemma_block_run(
    h: bool,
    a: Seq<NodeModel>,
    x: int,
    j: int,
    st: BuildState,
    q: int,
    i0: int,
)
    requires
        arena_wf(a),
        0 <= x < a.len(),
        0 <= j <= a[x].children.len(),
        state_inv(st),
        st.error is None,
        st.root == Some(0int),
        0 <= q < st.arena.len(),
        st.columns.contains_key(node_depth(a, x)),
        st.columns[node_depth(a, x)] == q,
        node_depth(st.arena, q) == node_depth(a, x),
    ensures
        ({
            let st2 = run_from(h, st, block_kids(a, x, j), i0);
            &&& st2.error is None
            &&& st2.root == st.root
            &&& state_inv(st2)
            &&& st.arena.len() + block_kids(a, x, j).len() == st2.arena.len()
            &&& (forall|i: int|
                0 <= i < st.arena.len() && i != q ==> st2.arena[i] == st.arena[i])
            &&& st2.arena[q].label == st.arena[q].label
            &&& st2.arena[q].parent == st.arena[q].parent
            &&& st2.arena[q].children.len() == st.arena[q].children.len() + (a[x].children.len()
                - j)
            &&& (forall|jj: int|
                0 <= jj < st.arena[q].children.len() ==> st2.arena[q].children[jj]
                    == st.arena[q].children[jj])
            &&& (forall|k: int|
                #[trigger] st.columns.contains_key(k) && k <= node_depth(a, x)
                    ==> st2.columns.contains_key(k) && st2.columns[k] == st.columns[k])
            &&& (forall|k: int|
                #[trigger] st2.columns.contains_key(k) && k <= node_depth(a, x)
                    ==> st.columns.contains_key(k))
            &&& block_kids(st2.arena, q, st.arena[q].children.len() as int) == block_kids(a, x, j)
        }),
    decreases a.len() - x, a[x].children.len() - j,
{
    let e = block_kids(a, x, j);
    let j0 = st.arena[q].children.len() as int;
    if j >= a[x].children.len() {
        assert(e =~= Seq::<LineEntry>::empty());
        assert(run_from(h, st, e, i0) == st);
        assert(block_kids(st.arena, q, j0) =~= Seq::<LineEntry>::empty());
    } else {
        let c = a[x].children[j];
        assert(x < c < a.len() && a[c].parent == Some(x));
        assert(node_depth(a, c) == node_depth(a, x) + 1);
        let e_c = entry_for(a, c);
        let block_c = block_kids(a, c, 0);
        let rest = block_kids(a, x, j + 1);
        assert(e == seq![e_c] + block_c + rest);

        // One step: process c's own entry; its anchor column is x's depth,
        // where q stands registered, so c's copy is appended under q.
        let st_a = build_step(h, st, i0, e_c);
        lemma_step_inv(h, st, i0, e_c);
        let c_new = st.arena.len() as int;
        assert(st.columns.contains_key(node_depth(a, c) - 1));
        assert(st_a.error is None);
        assert(st_a.arena.len() == st.arena.len() + 1);
        assert(st_a.arena[c_new].label == a[c].label);
        assert(st_a.arena[c_new].parent == Some(q));
        assert(st_a.arena[c_new].children.len() == 0);
        assert(st_a.arena[q].children == st.arena[q].children.push(c_new));
        assert(st_a.arena[q].label == st.arena[q].label);
        assert(st_a.arena[q].parent == st.arena[q].parent);
        assert(forall|i: int|
            0 <= i < st.arena.len() && i != q ==> st_a.arena[i] == st.arena[i]);
        assert(st_a.columns == st.columns.insert(node_depth(a, c), c_new));
        assert(forall|i: int|
            0 <= i < st.arena.len() ==> #[trigger] st_a.arena[i].parent == st.arena[i].parent);
        lemma_depth_frame(st.arena, st_a.arena, q);
        assert(2 <= st.arena.len());
        assert(node_depth(st_a.arena, c_new) == node_depth(st_a.arena, q) + 1);
        assert(node_depth(st_a.arena, c_new) == node_depth(a, c));

        // Run decomposition around the step and the two nested blocks.
        lemma_run_append(h, st, seq![e_c], block_c + rest, i0);
        assert(seq![e_c].drop_first() =~= Seq::<LineEntry>::empty());
        assert(run_from(h, st, seq![e_c], i0) == st_a);
        lemma_run_append(h, st_a, block_c, rest, i0 + 1);
        assert(e =~= seq![e_c] + (block_c + rest));

        // Recurse into c's subtree.
        lemma_block_run(h, a, c, 0, st_a, c_new, i0 + 1);
        let st_b = run_from(h, st_a, block_c, i0 + 1);
        assert(st_b.arena[q] == st_a.arena[q]);
        assert(st_a.columns.contains_key(node_depth(a, x)) && st_a.columns[node_depth(a, x)]
            == q);
        assert(node_depth(a, x) <= node_depth(a, c));
        assert(st_b.columns.contains_key(node_depth(a, x)) && st_b.columns[node_depth(a, x)]
            == q);
        assert(forall|i: int|
            0 <= i < st_a.arena.len() ==> #[trigger] st_b.arena[i].parent
                == st_a.arena[i].parent);
        lemma_depth_frame(st_a.arena, st_b.arena, q);
        assert(node_depth(st_b.arena, q) == node_depth(a, x));

        // Recurse for the remaining siblings.
        lemma_block_run(h, a, x, j + 1, st_b, q, i0 + 1 + block_c.len());
        let st_c = run_from(h, st_b, rest, i0 + 1 + block_c.len());
        assert(run_from(h, st, e, i0) == st_c);

        // The arena below the original length, other than q, is untouched.
        assert forall|i: int| 0 <= i < st.arena.len() && i != q implies st_c.arena[i]
            == st.arena[i] by {
            assert(st_a.arena[i] == st.arena[i]);
            assert(st_b.arena[i] == st_a.arena[i]);
            assert(st_c.arena[i] == st_b.arena[i]);
        }
        assert(st_c.arena[q].children.len() == j0 + 1 + (a[x].children.len() - (j + 1)));
        assert forall|jj: int| 0 <= jj < j0 implies st_c.arena[q].children[jj]
            == st.arena[q].children[jj] by {
            assert(st_b.arena[q].children[jj] == st_a.arena[q].children[jj]);
            assert(st_c.arena[q].children[jj] == st_b.arena[q].children[jj]);
        }

        // Columns at or below x's depth pass through unchanged.
        assert forall|k: int|
            #[trigger] st.columns.contains_key(k) && k <= node_depth(a, x) implies
            st_c.columns.contains_key(k) && st_c.columns[k] == st.columns[k] by {
            assert(st_a.columns.contains_key(k) && st_a.columns[k] == st.columns[k]);
            assert(st_b.columns.contains_key(k) && st_b.columns[k] == st_a.columns[k]);
        }
        assert forall|k: int|
            #[trigger] st_c.columns.contains_key(k) && k <= node_depth(a, x) implies
            st.columns.contains_key(k) by {
            assert(st_b.columns.contains_key(k));
            assert(st_a.columns.contains_key(k));
        }

        // The serialization of what was appended under q reproduces e.
        assert(st_b.arena[q].children.len() == j0 + 1);
        assert(st_c.arena[q].children[j0] == st_b.arena[q].children[j0]);
        assert(st_c.arena[q].children[j0] == c_new);
        assert(st_c.arena[c_new] == st_b.arena[c_new]);
        assert(st_c.arena[c_new].label == a[c].label);
        assert(forall|i: int|
            0 <= i < st_b.arena.len() ==> #[trigger] st_c.arena[i].parent
                == st_b.arena[i].parent);
        lemma_depth_frame(st_b.arena, st_c.arena, c_new);
        lemma_depth_frame(st_a.arena, st_b.arena, c_new);
        assert(node_depth(st_c.arena, c_new) == node_depth(a, c));
        assert(entry_for(st_c.arena, c_new) == e_c);
        assert(block_kids(st_b.arena, c_new, 0) == block_c);
        assert(forall|i: int|
            c_new <= i < st_b.arena.len() ==> #[trigger] st_c.arena[i] == st_b.arena[i]);
        lemma_block_frame(st_b.arena, st_c.arena, c_new, 0);
        assert(block_kids(st_c.arena, c_new, 0) == block_c);
        assert(block_kids(st_c.arena, q, j0 + 1) == rest);
        assert(q < c_new < st_c.arena.len());
        assert(block_kids(st_c.arena, q, j0) == seq![entry_for(st_c.arena, c_new)]
            + block_kids(st_c.arena, c_new, 0) + block_kids(st_c.arena, q, j0 + 1));
        assert(block_kids(st_c.arena, q, j0) == e);
    }
}

/// Law: replaying a well-formed tree's depth-first serialization — heading
/// capture on, the root's label free of surrounding whitespace — rebuilds a
/// tree whose own depth-first serialization is the same. The serialization
/// lists every node's label and depth in preorder, so an equal serialization
/// means a structure-preserving round trip: an isomorphic tree.
pub proof fn lemma_round_trip(a: Seq<NodeModel>)
    requires
        arena_wf(a),
        a.len() >= 2,
        trim_model(a[0].label) == a[0].label,
    ensures
        ({
            let st = build_model(true, serialized(a), 0, serialized(a).len() as int);
            &&& st.error is None
            &&& st.root == Some(0int)
            &&& arena_wf(st.arena)
            &&& st.arena[0].label == a[0].label
            &&& serialized(st.arena) == serialized(a)
        }),
{
    let e = serialized(a);
    let hd = LineEntry { raw: a[0].label, class: None };
    assert(a[1].parent is Some && 0 <= a[1].parent->Some_0 < 1);
    assert(a[a[1].parent->Some_0].children.contains(1int));
    assert(a[0].children.len() > 0);
    let c1 = a[0].children[0];
    assert(0 < c1 < a.len());
    assert(a[c1].parent == Some(0int));
    assert(node_depth(a, 0) == 0);
    assert(node_depth(a, c1) == 1);
    let e_c1 = entry_for(a, c1);
    let block_c1 = block_kids(a, c1, 0);
    let rest = block_kids(a, 0, 1);
    assert(block_kids(a, 0, 0) == seq![e_c1] + block_c1 + rest);

    lemma_build_is_run(true, e, 0, e.len() as int);
    assert(e.subrange(0, e.len() as int) =~= e);

    // The heading entry defers the root's label.
    let st0 = initial_state();
    let st_h = build_step(true, st0, 0, hd);
    lemma_step_inv(true, st0, 0, hd);
    assert(st_h.pending_root_label == Some(a[0].label));
    lemma_run_append(true, st0, seq![hd], block_kids(a, 0, 0), 0);
    assert(seq![hd].drop_first() =~= Seq::<LineEntry>::empty());
    assert(run_from(true, st_h, seq![hd].drop_first(), 1) == st_h);
    assert(run_from(true, st0, seq![hd], 0) == st_h);
    assert(e =~= seq![hd] + block_kids(a, 0, 0));

    // The first node entry synthesizes the root and its first child and
    // registers them under columns 0 and 1.
    lemma_run_append(true, st_h, seq![e_c1], block_c1 + rest, 1);
    assert(block_kids(a, 0, 0) =~= seq![e_c1] + (block_c1 + rest));
    let st1 = build_step(true, st_h, 1, e_c1);
    lemma_step_inv(true, st_h, 1, e_c1);
    assert(seq![e_c1].drop_first() =~= Seq::<LineEntry>::empty());
    assert(run_from(true, st1, seq![e_c1].drop_first(), 2) == st1);
    assert(run_from(true, st_h, seq![e_c1], 1) == st1);
    assert(state_inv(st1));
    assert(st1.error is None);
    assert(st1.root == Some(0int));
    assert(st1.arena.len() == 2);
    assert(st1.arena[0].label == a[0].label);
    assert(st1.arena[0].children =~= seq![1int]);
    assert(st1.arena[1].label == a[c1].label);
    assert(st1.arena[1].parent == Some(0int));
    assert(st1.arena[1].children.len() == 0);
    assert(st1.columns.contains_key(1int) && st1.columns[1int] == 1);
    assert(st1.columns.contains_key(0int) && st1.columns[0int] == 0);
    assert(node_depth(st1.arena, 0) == 0);
    assert(node_depth(st1.arena, 1) == 1);

    // Replay the first child's subtree under its copy ...
    lemma_run_append(true, st1, block_c1, rest, 2);
    lemma_block_run(true, a, c1, 0, st1, 1, 2);
    let st2 = run_from(true, st1, block_c1, 2);
    assert(st2.arena[0] == st1.arena[0]);
    assert(st2.columns.contains_key(0int) && st2.columns[0int] == 0);
    assert(node_depth(st2.arena, 0) == 0);

    // ... then the root's remaining subtrees under the root's copy.
    lemma_block_run(true, a, 0, 1, st2, 0, 2 + block_c1.len() as int);
    let st3 = run_from(true, st2, rest, 2 + block_c1.len() as int);
    assert(run_from(true, st0, e, 0) == st3);
    assert(build_model(true, e, 0, e.len() as int) == st3);
    assert(st3.error is None);
    assert(st3.root == Some(0int));
    assert(state_inv(st3));
    assert(st3.arena[0].label == a[0].label);

    // The rebuilt tree serializes back to the original serialization.
    assert(st2.arena[0].children.len() == 1);
    assert(st3.arena[0].children[0] == st2.arena[0].children[0]);
    assert(st3.arena[0].children[0] == 1);
    assert(st3.arena[1] == st2.arena[1]);
    assert(st2.arena[1].label == st1.arena[1].label);
    assert(st3.arena[1].label == a[c1].label);
    assert(st3.arena[1].parent == Some(0int));
    assert(node_depth(st3.arena, 1) == 1);
    assert(entry_for(st3.arena, 1) == e_c1);
    assert(st1.arena[1].children.len() == 0);
    assert(block_kids(st2.arena, 1, 0) == block_c1);
    assert(forall|i: int| 1 <= i < st2.arena.len() ==> #[trigger] st3.arena[i] == st2.arena[i]);
    assert(forall|i: int|
        0 <= i < st2.arena.len() ==> #[trigger] st3.arena[i].parent == st2.arena[i].parent);
    lemma_block_frame(st2.arena, st3.arena, 1, 0);
    assert(block_kids(st3.arena, 1, 0) == block_c1);
    assert(block_kids(st3.arena, 0, 1) == rest);
    assert(0 < 1 && st3.arena[0].children[0] == 1 && 1 < st3.arena.len());
    assert(block_kids(st3.arena, 0, 0) == seq![entry_for(st3.arena, 1)] + block_kids(
        st3.arena,
        1,
        0,
    ) + block_kids(st3.arena, 0, 1));
    assert(block_kids(st3.arena, 0, 0) == block_kids(a, 0, 0));
    assert(serialized(st3.arena) =~= serialized(a));
}

} // verus!
