//! Tree construction: a single pass folds classified lines into the arena,
//! finding each node line's parent through the column index and reporting
//! structural failures (no root, dangling anchor) as hard errors.

use vstd::prelude::*;
use vstd::slice::slice_subrange;
use vstd::slice::slice_to_vec;

use crate::arena::Arena;
use crate::arena::NodeModel;
use crate::arena::arena_wf;
use crate::classify::Config;
use crate::classify::ConfigModel;
use crate::classify::class_model;
use crate::classify::classify_line;
use crate::classify::classify_model;
use crate::colmap::ColumnIndex;

verus! {

/// Mathematical form of a parse failure.
pub enum ErrorModel {
    /// No line produced a node, so no root could be established.
    EmptyInput,
    /// A node line's anchor column had no registered ancestor; carries the
    /// line's index in the input and its raw text.
    DanglingAnchor { line_index: int, line: Seq<u8> },
}

/// A parse failure, carrying what a caller needs for diagnosis.
#[derive(Debug)]
pub enum ParseError {
    /// No line produced a node, so no root could be established.
    EmptyInput,
    /// A node line's anchor column had no registered ancestor.
    DanglingAnchor { line_index: usize, line: Vec<u8> },
}

impl View for ParseError {
    type V = ErrorModel;

    open spec fn view(&self) -> ErrorModel {
        match self {
            ParseError::EmptyInput => ErrorModel::EmptyInput,
            ParseError::DanglingAnchor { line_index, line } => ErrorModel::DanglingAnchor {
                line_index: *line_index as int,
                line: line@,
            },
        }
    }
}

/// Whether `b` is an ASCII whitespace byte.
pub open spec fn ascii_space(b: u8) -> bool {
    b == 32 || b == 9 || b == 10 || b == 11 || b == 12 || b == 13
}

/// `s` with leading ASCII whitespace removed.
pub open spec fn trim_front(s: Seq<u8>) -> Seq<u8>
    decreases s.len(),
{
    if s.len() > 0 && ascii_space(s[0]) {
        trim_front(s.drop_first())
    } else {
        s
    }
}

/// `s` with trailing ASCII whitespace removed.
pub open spec fn trim_back(s: Seq<u8>) -> Seq<u8>
    decreases s.len(),
{
    if s.len() > 0 && ascii_space(s.last()) {
        trim_back(s.drop_last())
    } else {
        s
    }
}

/// `s` with leading and trailing ASCII whitespace removed.
pub open spec fn trim_model(s: Seq<u8>) -> Seq<u8> {
    trim_back(trim_front(s))
}

proof fn lemma_trim_front_skip(s: Seq<u8>, i: int)
    requires
        0 <= i <= s.len(),
        forall|j: int| 0 <= j < i ==> ascii_space(#[trigger] s[j]),
    ensures
        trim_front(s) == trim_front(s.subrange(i, s.len() as int)),
    decreases i,
{
    if i > 0 {
        assert(ascii_space(s[0]));
        let tail = s.subrange(1, s.len() as int);
        assert(s.drop_first() =~= tail);
        lemma_trim_front_skip(tail, i - 1);
        assert(tail.subrange(i - 1, tail.len() as int) =~= s.subrange(i, s.len() as int));
    } else {
        assert(s.subrange(0, s.len() as int) =~= s);
    }
}

proof fn lemma_trim_back_skip(s: Seq<u8>, i: int)
    requires
        0 <= i <= s.len(),
        forall|j: int| i <= j < s.len() ==> ascii_space(#[trigger] s[j]),
    ensures
        trim_back(s) == trim_back(s.subrange(0, i)),
    decreases s.len() - i,
{
    if i < s.len() {
        assert(ascii_space(s.last()));
        let front = s.subrange(0, s.len() - 1);
        assert(s.drop_last() =~= front);
        lemma_trim_back_skip(front, i);
        assert(front.subrange(0, i) =~= s.subrange(0, i));
    } else {
        assert(s.subrange(0, s.len() as int) =~= s);
    }
}

/// Removes leading and trailing ASCII whitespace from `line`.
fn trim_bytes(line: &Vec<u8>) -> (r: Vec<u8>)
    ensures
        r@ == trim_model(line@),
{
    let n = line.len();
    let mut start: usize = 0;
    while start < n
        invariant
            start <= n,
            n == line@.len(),
            forall|j: int| 0 <= j < start ==> ascii_space(#[trigger] line@[j]),
        ensures
            start <= n,
            n == line@.len(),
            forall|j: int| 0 <= j < start ==> ascii_space(#[trigger] line@[j]),
            start < n ==> !ascii_space(line@[start as int]),
        decreases n - start,
    {
        let b = line[start];
        if !(b == 32 || b == 9 || b == 10 || b == 11 || b == 12 || b == 13) {
            break ;
        }
        start += 1;
    }
    let mut end: usize = n;
    while end > start
        invariant
            start <= end <= n,
            n == line@.len(),
            forall|j: int| end <= j < n ==> ascii_space(#[trigger] line@[j]),
        ensures
            start <= end <= n,
            n == line@.len(),
            forall|j: int| end <= j < n ==> ascii_space(#[trigger] line@[j]),
            end > start ==> !ascii_space(line@[end - 1]),
        decreases end,
    {
        let b = line[end - 1];
        if !(b == 32 || b == 9 || b == 10 || b == 11 || b == 12 || b == 13) {
            break ;
        }
        end -= 1;
    }
    proof {
        lemma_trim_front_skip(line@, start as int);
        let tail = line@.subrange(start as int, n as int);
        assert(trim_front(tail) == tail);
        lemma_trim_back_skip(tail, end - start);
        assert(tail.subrange(0, end - start) =~= line@.subrange(start as int, end as int));
        assert(trim_back(tail.subrange(0, end - start)) == tail.subrange(0, end - start));
    }
    slice_to_vec(slice_subrange(line.as_slice(), start, end))
}

/// The placeholder root label used when no heading line was captured.
pub open spec fn sentinel_model() -> Seq<u8> {
    seq![60u8, 46u8, 46u8, 46u8, 62u8]
}

/// Builds the placeholder root label, `<...>`.
fn sentinel_label() -> (r: Vec<u8>)
    ensures
        r@ == sentinel_model(),
{
    let mut v: Vec<u8> = Vec::new();
    v.push(60);
    v.push(46);
    v.push(46);
    v.push(46);
    v.push(62);
    proof {
        assert(v@ =~= sentinel_model());
    }
    v
}

/// One input line as the builder sees it: its raw text and its
/// classification.
pub struct LineEntry {
    pub raw: Seq<u8>,
    pub class: Option<(int, int, Seq<u8>)>,
}

/// The builder's state while folding lines: the arena built so far, the
/// column index, the root handle once established, a deferred root label,
/// and the first fatal error if one occurred.
#[verifier::ext_equal]
pub struct BuildState {
    pub arena: Seq<NodeModel>,
    pub columns: Map<int, int>,
    pub root: Option<int>,
    pub pending_root_label: Option<Seq<u8>>,
    pub error: Option<ErrorModel>,
}

/// The state before any line was processed.
pub open spec fn initial_state() -> BuildState {
    BuildState {
        arena: Seq::empty(),
        columns: Map::empty(),
        root: None,
        pending_root_label: None,
        error: None,
    }
}

/// Folds one classified line (at input index `idx`) into the state.
pub open spec fn build_step(heading: bool, st: BuildState, idx: int, entry: LineEntry) -> BuildState {
    if st.error is Some {
        st
    } else {
        match entry.class {
            None => if st.root is None && heading {
                BuildState { pending_root_label: Some(trim_model(entry.raw)), ..st }
            } else {
                st
            },
            Some(nl) => {
                if st.root is None {
                    let root_label = match st.pending_root_label {
                        Some(l) => l,
                        None => sentinel_model(),
                    };
                    let r = st.arena.len() as int;
                    let c = r + 1;
                    let arena1 = st.arena.push(
                        NodeModel { label: root_label, parent: None, children: Seq::empty() },
                    ).push(NodeModel { label: nl.2, parent: Some(r), children: Seq::empty() });
                    let arena2 = arena1.update(
                        r,
                        NodeModel { children: arena1[r].children.push(c), ..arena1[r] },
                    );
                    BuildState {
                        arena: arena2,
                        columns: st.columns.insert(nl.0, r).insert(nl.1, c),
                        root: Some(r),
                        pending_root_label: None,
                        error: None,
                    }
                } else if st.columns.contains_key(nl.0) {
                    let p = st.columns[nl.0];
                    let c = st.arena.len() as int;
                    let arena1 = st.arena.push(
                        NodeModel { label: nl.2, parent: Some(p), children: Seq::empty() },
                    );
                    let arena2 = arena1.update(
                        p,
                        NodeModel { children: arena1[p].children.push(c), ..arena1[p] },
                    );
                    BuildState { arena: arena2, columns: st.columns.insert(nl.1, c), ..st }
                } else {
                    BuildState {
                        error: Some(
                            ErrorModel::DanglingAnchor { line_index: idx, line: entry.raw },
                        ),
                        ..st
                    }
                }
            },
        }
    }
}

/// The state after folding the first `n` entries, where entry `i` stands at
/// input index `base + i`.
pub open spec fn build_model(heading: bool, entries: Seq<LineEntry>, base: int, n: int) -> BuildState
    decreases n,
{
    if n <= 0 {
        initial_state()
    } else {
        build_step(heading, build_model(heading, entries, base, n - 1), base + n - 1, entries[n - 1])
    }
}

/// How many leading lines are discarded before classification begins.
pub open spec fn skip_count(cfg: ConfigModel, lines: Seq<Seq<u8>>) -> int {
    if cfg.skip_lines <= lines.len() {
        cfg.skip_lines
    } else {
        lines.len() as int
    }
}

/// The classified entries of the lines that survive `skip_lines`.
pub open spec fn classified_entries(cfg: ConfigModel, lines: Seq<Seq<u8>>) -> Seq<LineEntry> {
    let k = skip_count(cfg, lines);
    Seq::new(
        (lines.len() - k) as nat,
        |i: int| LineEntry { raw: lines[k + i], class: classify_model(cfg, lines[k + i]) },
    )
}

/// The parse's outcome once every line is folded: the first fatal error,
/// else the arena with its root handle, else `EmptyInput`.
pub open spec fn finish_model(st: BuildState) -> Result<(Seq<NodeModel>, int), ErrorModel> {
    match st.error {
        Some(e) => Err(e),
        None => match st.root {
            Some(r) => Ok((st.arena, r)),
            None => Err(ErrorModel::EmptyInput),
        },
    }
}

/// What parsing `lines` under `cfg` yields.
pub open spec fn parse_model(cfg: ConfigModel, lines: Seq<Seq<u8>>) -> Result<
    (Seq<NodeModel>, int),
    ErrorModel,
> {
    let entries = classified_entries(cfg, lines);
    finish_model(
        build_model(
            cfg.treat_first_nonmatch_as_heading,
            entries,
            skip_count(cfg, lines),
            entries.len() as int,
        ),
    )
}

/// Soundness of a builder state: the arena is well-formed, the root (once
/// present) is node 0 of an arena holding it and its first child, and every
/// registered column names a live handle.
pub open spec fn state_inv(st: BuildState) -> bool {
    &&& arena_wf(st.arena)
    &&& (st.root is None ==> st.arena.len() == 0 && st.columns == Map::<int, int>::empty())
    &&& (st.root is Some ==> st.root == Some(0int) && 2 <= st.arena.len())
    &&& (forall|k: int| #[trigger] st.columns.contains_key(k) ==> 0 <= st.columns[k] < st.arena.len())
}

/// One build step keeps the state sound.
pub proof fn lemma_step_inv(heading: bool, st: BuildState, idx: int, entry: LineEntry)
    requires
        state_inv(st),
    ensures
        state_inv(build_step(heading, st, idx, entry)),
{
    let st2 = build_step(heading, st, idx, entry);
    if st.error is None {
        match entry.class {
            None => {},
            Some(nl) => {
                if st.root is None {
                    let a2 = st2.arena;
                    assert(st.arena.len() == 0);
                    assert(a2.len() == 2);
                    assert(a2[0].parent is None);
                    assert(a2[0].children =~= seq![1int]);
                    assert(a2[1].parent == Some(0int));
                    assert(a2[1].children =~= Seq::<int>::empty());
                    assert(arena_wf(a2)) by {
                        assert(forall|i: int, j: int|
                            0 <= i < a2.len() && 0 <= j < a2[i].children.len() ==> i
                                < #[trigger] a2[i].children[j] < a2.len()
                                && a2[a2[i].children[j]].parent == Some(i));
                        assert(a2[0].children[0] == 1int);
                        assert(a2[a2[1].parent->Some_0].children.contains(1int));
                    }
                } else if st.columns.contains_key(nl.0) {
                    let p = st.columns[nl.0];
                    let c = st.arena.len() as int;
                    let a = st.arena;
                    let a2 = st2.arena;
                    assert(0 <= p < c);
                    assert(a2.len() == c + 1);
                    assert(a2[c].parent == Some(p));
                    assert(a2[c].children =~= Seq::<int>::empty());
                    assert(a2[p].children =~= a[p].children.push(c));
                    assert(forall|i: int| 0 <= i < c && i != p ==> a2[i] == a[i]);
                    assert(a2[p].parent == a[p].parent);
                    assert(a2[p].label == a[p].label);
                    // parent fields
                    assert(forall|i: int|
                        1 <= i < a2.len() ==> (#[trigger] a2[i].parent) is Some
                            && 0 <= a2[i].parent->Some_0 < i) by {
                        assert(forall|i: int| 1 <= i < c ==> a2[i].parent == a[i].parent);
                    }
                    // child edges
                    assert forall|i: int, j: int|
                        0 <= i < a2.len() && 0 <= j < a2[i].children.len() implies i
                        < #[trigger] a2[i].children[j] < a2.len()
                        && a2[a2[i].children[j]].parent == Some(i) by {
                        if i == p {
                            if j < a[p].children.len() {
                                let ch = a[p].children[j];
                                assert(p < ch < a.len());
                                assert(a[ch].parent == Some(p));
                                assert(a2[i].children[j] == ch);
                                assert(a2[ch].parent == a[ch].parent);
                            } else {
                                assert(a2[i].children[j] == c);
                            }
                        } else if i == c {
                            assert(a2[i].children.len() == 0);
                        } else {
                            let ch = a[i].children[j];
                            assert(i < ch < a.len());
                            assert(a[ch].parent == Some(i));
                            if ch == p {
                                assert(a2[ch].parent == a[ch].parent);
                            }
                        }
                    }
                    // children strictly increasing
                    assert forall|i: int, j: int, k2: int|
                        0 <= i < a2.len() && 0 <= j < k2 < a2[i].children.len() implies
                        #[trigger] a2[i].children[j] < #[trigger] a2[i].children[k2] by {
                        if i == p {
                            if k2 < a[p].children.len() {
                            } else {
                                assert(a2[i].children[k2] == c);
                                assert(a2[i].children[j] == a[p].children[j]);
                                assert(a[p].children[j] < a.len());
                            }
                        }
                    }
                    // completeness
                    assert forall|co: int| 1 <= co < a2.len() implies a2[(#[trigger] a2[co].parent)->Some_0].children.contains(
                        co,
                    ) by {
                        if co == c {
                            assert(a2[p].children[a2[p].children.len() - 1] == c);
                            assert(a2[p].children.contains(c));
                        } else {
                            let q = a[co].parent->Some_0;
                            assert(a[q].children.contains(co));
                            let w = choose|w: int|
                                0 <= w < a[q].children.len() && a[q].children[w] == co;
                            assert(a2[q].children[w] == co);
                            assert(a2[q].children.contains(co));
                            assert(a2[co].parent == a[co].parent);
                        }
                    }
                    assert(arena_wf(a2));
                } else {
                }
            },
        }
    }
}

/// The first `n` build steps keep the state sound.
pub proof fn lemma_build_inv(heading: bool, entries: Seq<LineEntry>, base: int, n: int)
    ensures
        state_inv(build_model(heading, entries, base, n)),
    decreases n,
{
    if n <= 0 {
        assert(state_inv(initial_state()));
    } else {
        lemma_build_inv(heading, entries, base, n - 1);
        lemma_step_inv(heading, build_model(heading, entries, base, n - 1), base + n - 1, entries[n - 1]);
    }
}

/// Once an error is recorded, later lines change nothing.
pub proof fn lemma_error_stable(heading: bool, entries: Seq<LineEntry>, base: int, n: int, m: int)
    requires
        0 <= n <= m,
        build_model(heading, entries, base, n).error is Some,
    ensures
        build_model(heading, entries, base, m) == build_model(heading, entries, base, n),
    decreases m - n,
{
    if m > n {
        lemma_error_stable(heading, entries, base, n, m - 1);
    }
}

/// Copies a byte vector.
fn copy_bytes(v: &Vec<u8>) -> (r: Vec<u8>)
    ensures
        r@ == v@,
{
    slice_to_vec(v.as_slice())
}

/// Reconstructs the tree depicted by `lines` under `cfg`.
///
/// On success the arena holds one node per matched line plus the root (node
/// 0, labeled by the captured heading or the placeholder), with every
/// parent/child edge recovered through the column index. `EmptyInput` is
/// returned when no line matched; `DanglingAnchor` when a node line's anchor
/// column had no registered ancestor, carrying that line's index and text.
pub fn parse_tree(cfg: &Config, lines: &Vec<Vec<u8>>) -> (r: Result<(Arena, usize), ParseError>)
    ensures
        ({
            let m = parse_model(cfg@, lines.deep_view());
            match r {
                Ok(t) => m matches Ok(mt) && t.0@ == mt.0 && t.1 as int == mt.1 && t.1 == 0
                    && arena_wf(t.0@) && 2 <= t.0@.len(),
                Err(e) => m matches Err(me) && e@ == me,
            }
        }),
{
    let ghost lv = lines.deep_view();
    let ghost cfgv = cfg@;
    let ghost entries = classified_entries(cfgv, lv);
    let ghost heading = cfgv.treat_first_nonmatch_as_heading;
    let k = if cfg.skip_lines <= lines.len() {
        cfg.skip_lines
    } else {
        lines.len()
    };
    let ghost base = k as int;
    proof {
        assert(lv.len() == lines@.len());
        assert(base == skip_count(cfgv, lv));
        assert(entries.len() == lv.len() - base);
    }
    let mut arena = Arena::new();
    let mut columns = ColumnIndex::new();
    let mut root: Option<usize> = None;
    let mut pending: Option<Vec<u8>> = None;
    let mut i = k;
    while i < lines.len()
        invariant
            k <= i <= lines.len(),
            lv == lines.deep_view(),
            cfgv == cfg@,
            entries == classified_entries(cfgv, lv),
            heading == cfgv.treat_first_nonmatch_as_heading,
            base == k as int,
            base == skip_count(cfgv, lv),
            entries.len() == lv.len() - base,
            columns.wf(),
            ({
                let st = build_model(heading, entries, base, i as int - base);
                &&& st.error is None
                &&& arena@ == st.arena
                &&& columns@ == st.columns
                &&& (match root {
                    Some(rr) => st.root == Some(rr as int),
                    None => st.root is None,
                })
                &&& (match pending {
                    Some(pl) => st.pending_root_label == Some(pl@),
                    None => st.pending_root_label is None,
                })
                &&& state_inv(st)
            }),
        decreases lines@.len() - i,
    {
        let ghost st = build_model(heading, entries, base, i as int - base);
        let ghost entry = entries[i as int - base];
        let line = &lines[i];
        proof {
            assert(lv[i as int] == lines@[i as int].deep_view());
            assert(lines@[i as int].deep_view() =~= line@);
            assert(entry.raw == line@);
            assert(entry.class == classify_model(cfgv, line@));
        }
        let cls = classify_line(cfg, line);
        proof {
            assert(class_model(cls) == entry.class);
            lemma_step_inv(heading, st, i as int, entry);
        }
        let ghost st2 = build_step(heading, st, i as int, entry);
        match cls {
            None => {
                if root.is_none() && cfg.treat_first_nonmatch_as_heading {
                    pending = Some(trim_bytes(line));
                }
                proof {
                    assert(arena@ == st2.arena);
                    assert(columns@ == st2.columns);
                }
            },
            Some((anchor_column, data_column, text)) => {
                if root.is_none() {
                    let root_label = match pending {
                        Some(l) => l,
                        None => sentinel_label(),
                    };
                    pending = None;
                    let rn = arena.new_node(root_label, None);
                    let cn = arena.new_node(text, Some(rn));
                    arena.append_child(rn, cn);
                    columns.set(anchor_column, rn);
                    columns.set(data_column, cn);
                    root = Some(rn);
                    proof {
                        assert(arena@ =~~= st2.arena);
                        assert(columns@ =~~= st2.columns);
                    }
                } else {
                    match columns.get(anchor_column) {
                        Some(p) => {
                            let cn = arena.new_node(text, Some(p));
                            arena.append_child(p, cn);
                            columns.set(data_column, cn);
                            proof {
                                assert(arena@ =~~= st2.arena);
                                assert(columns@ =~~= st2.columns);
                            }
                        },
                        None => {
                            proof {
                                assert(st2.error == Some(
                                    ErrorModel::DanglingAnchor { line_index: i as int, line: entry.raw },
                                ));
                                lemma_error_stable(
                                    heading,
                                    entries,
                                    base,
                                    i as int - base + 1,
                                    entries.len() as int,
                                );
                            }
                            return Err(
                                ParseError::DanglingAnchor { line_index: i, line: copy_bytes(line) },
                            );
                        },
                    }
                }
            },
        }
        i += 1;
        proof {
            assert(build_model(heading, entries, base, i as int - base) == st2);
        }
    }
    let ghost stf = build_model(heading, entries, base, entries.len() as int);
    proof {
        assert(i as int - base == entries.len());
    }
    match root {
        Some(r) => Ok((arena, r)),
        None => Err(ParseError::EmptyInput),
    }
}

} // verus!
