//! Global properties of the parse, stated over the builder's mathematical
//! model and proved once for all inputs.

use vstd::prelude::*;

use crate::arena::NodeModel;
use crate::builder::ErrorModel;
use crate::builder::LineEntry;
use crate::builder::build_model;
use crate::builder::classified_entries;
use crate::builder::finish_model;
use crate::builder::lemma_build_inv;
use crate::builder::lemma_error_stable;
use crate::builder::parse_model;
use crate::builder::skip_count;
use crate::classify::ConfigModel;
use crate::classify::classify_model;

verus! {

/// How many of the first `n` entries classified as node lines.
pub open spec fn node_line_count(entries: Seq<LineEntry>, n: int) -> int
    decreases n,
{
    if n <= 0 {
        0
    } else {
        node_line_count(entries, n - 1) + if entries[n - 1].class is Some {
            1int
        } else {
            0int
        }
    }
}

/// The columns registered after the first `n` entries: every node line's
/// data column, and additionally the first node line's anchor column, under
/// which the synthesized root is registered.
pub open spec fn registered_columns(entries: Seq<LineEntry>, n: int) -> Set<int>
    decreases n,
{
    if n <= 0 {
        Set::empty()
    } else {
        let s = registered_columns(entries, n - 1);
        match entries[n - 1].class {
            None => s,
            Some(nl) => if node_line_count(entries, n - 1) == 0 {
                s.insert(nl.0).insert(nl.1)
            } else {
                s.insert(nl.1)
            },
        }
    }
}

/// Whether, among the first `n` entries, every node line after the first
/// anchors at a column registered by an earlier line.
pub open spec fn anchors_consistent(entries: Seq<LineEntry>, n: int) -> bool {
    forall|i: int|
        0 <= i < n && (#[trigger] entries[i].class) is Some && node_line_count(entries, i) > 0
            ==> registered_columns(entries, i).contains(entries[i].class->Some_0.0)
}

proof fn lemma_count_nonneg(entries: Seq<LineEntry>, n: int)
    ensures
        node_line_count(entries, n) >= 0,
    decreases n,
{
    if n > 0 {
        lemma_count_nonneg(entries, n - 1);
    }
}

proof fn lemma_count_monotone(entries: Seq<LineEntry>, m: int, n: int)
    requires
        m <= n,
    ensures
        node_line_count(entries, m) <= node_line_count(entries, n),
    decreases n - m,
{
    if n > m {
        lemma_count_monotone(entries, m, n - 1);
    }
}

/// While its anchors stay consistent, the build runs without error; the
/// root exists as soon as a node line did, each registered column is
/// tracked, and the arena holds one node per node line plus the root.
pub proof fn lemma_build_progress(heading: bool, entries: Seq<LineEntry>, base: int, n: int)
    requires
        0 <= n <= entries.len(),
        anchors_consistent(entries, n),
    ensures
        ({
            let st = build_model(heading, entries, base, n);
            &&& st.error is None
            &&& (st.root is Some <==> node_line_count(entries, n) > 0)
            &&& st.columns.dom() == registered_columns(entries, n)
            &&& st.arena.len() == (if node_line_count(entries, n) > 0 {
                1 + node_line_count(entries, n)
            } else {
                0int
            })
        }),
    decreases n,
{
    if n <= 0 {
        assert(build_model(heading, entries, base, n).columns.dom() =~= Set::<int>::empty());
    } else {
        lemma_build_progress(heading, entries, base, n - 1);
        lemma_build_inv(heading, entries, base, n - 1);
        lemma_count_nonneg(entries, n - 1);
        let st = build_model(heading, entries, base, n - 1);
        let st2 = build_model(heading, entries, base, n);
        match entries[n - 1].class {
            None => {
                assert(st2.columns.dom() =~= registered_columns(entries, n));
            },
            Some(nl) => {
                if node_line_count(entries, n - 1) == 0 {
                    assert(st.root is None);
                    assert(st.columns == Map::<int, int>::empty());
                    assert(st2.columns == st.columns.insert(nl.0, st.arena.len() as int).insert(
                        nl.1,
                        st.arena.len() as int + 1,
                    ));
                    assert(st2.columns.dom() =~= registered_columns(entries, n));
                } else {
                    assert(st.root is Some);
                    assert(registered_columns(entries, n - 1).contains(nl.0));
                    assert(st.columns.dom().contains(nl.0));
                    assert(st.columns.contains_key(nl.0));
                    assert(st2.columns.dom() =~= registered_columns(entries, n));
                }
            },
        }
    }
}

/// Law: when every node line after the first anchors at a column registered
/// by an earlier line and at least one line is a node line, parsing
/// succeeds, and the arena holds exactly one node per matched line plus the
/// synthesized root.
pub proof fn lemma_consistent_input_succeeds(heading: bool, entries: Seq<LineEntry>, base: int)
    requires
        anchors_consistent(entries, entries.len() as int),
        node_line_count(entries, entries.len() as int) > 0,
    ensures
        ({
            let r = finish_model(build_model(heading, entries, base, entries.len() as int));
            &&& r is Ok
            &&& r->Ok_0.0.len() == 1 + node_line_count(entries, entries.len() as int)
        }),
{
    lemma_build_progress(heading, entries, base, entries.len() as int);
}

/// Law: when no line classifies as a node line — in particular for zero
/// input lines — parsing yields `EmptyInput`.
pub proof fn lemma_no_node_line_is_empty_input(heading: bool, entries: Seq<LineEntry>, base: int)
    requires
        node_line_count(entries, entries.len() as int) == 0,
    ensures
        finish_model(build_model(heading, entries, base, entries.len() as int)) == Err::<
            (Seq<NodeModel>, int),
            ErrorModel,
        >(ErrorModel::EmptyInput),
{
    assert forall|i: int|
        0 <= i < entries.len() && (#[trigger] entries[i].class) is Some && node_line_count(
            entries,
            i,
        ) > 0 implies registered_columns(entries, i).contains(entries[i].class->Some_0.0) by {
        lemma_count_monotone(entries, i, entries.len() as int);
    }
    lemma_build_progress(heading, entries, base, entries.len() as int);
}

/// Law: a node line whose anchor column was never registered by an earlier
/// line aborts the whole parse with `DanglingAnchor` naming that line's
/// index and text — no partially built tree is returned.
pub proof fn lemma_unregistered_anchor_dangles(
    heading: bool,
    entries: Seq<LineEntry>,
    base: int,
    n: int,
)
    requires
        0 <= n < entries.len(),
        anchors_consistent(entries, n),
        entries[n].class is Some,
        node_line_count(entries, n) > 0,
        !registered_columns(entries, n).contains(entries[n].class->Some_0.0),
    ensures
        finish_model(build_model(heading, entries, base, entries.len() as int)) == Err::<
            (Seq<NodeModel>, int),
            ErrorModel,
        >(ErrorModel::DanglingAnchor { line_index: base + n, line: entries[n].raw }),
{
    lemma_build_progress(heading, entries, base, n);
    let st = build_model(heading, entries, base, n);
    let st2 = build_model(heading, entries, base, n + 1);
    assert(!st.columns.contains_key(entries[n].class->Some_0.0));
    assert(st2.error == Some(
        ErrorModel::DanglingAnchor { line_index: base + n, line: entries[n].raw },
    ));
    lemma_error_stable(heading, entries, base, n + 1, entries.len() as int);
}

/// Law: duplicate folding is a display-time lookup layered over the arena —
/// the parse itself is independent of `fold_duplicates`, so enabling it
/// never adds a copy of a referenced subtree's nodes to the arena.
pub proof fn lemma_fold_mode_does_not_change_parse(
    cfg: ConfigModel,
    other: ConfigModel,
    lines: Seq<Seq<u8>>,
)
    requires
        other == (ConfigModel { fold_duplicates: other.fold_duplicates, ..cfg }),
    ensures
        parse_model(cfg, lines) == parse_model(other, lines),
{
    assert forall|l: Seq<u8>| classify_model(cfg, l) == classify_model(other, l) by {
        assert(cfg.pattern == other.pattern);
        assert(cfg.anchor_group == other.anchor_group);
        assert(cfg.data_group == other.data_group);
    }
    assert(skip_count(cfg, lines) == skip_count(other, lines));
    assert(classified_entries(cfg, lines) =~= classified_entries(other, lines));
}

} // verus!
