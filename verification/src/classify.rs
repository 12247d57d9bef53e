//! Per-line classification: a configurable extraction pattern yields, for a
//! line, either "no match" or a node line with an anchor column, a data
//! column and the label text. Columns are counted in Unicode scalar values,
//! not bytes, so multi-byte connector glyphs do not desynchronize offsets.

use vstd::prelude::*;
use vstd::slice::slice_subrange;
use vstd::slice::slice_to_vec;

verus! {

/// Configuration of one parse. `pattern` is a regular expression over the
/// line's text (given as UTF-8 bytes); `anchor_group` selects the captured
/// span whose start column anchors the line to its parent; `data_group`, when
/// set, selects the captured span holding the label, otherwise the label is
/// everything after the anchor span. `skip_lines` leading lines are discarded
/// unconditionally. `treat_first_nonmatch_as_heading` controls root-label
/// inference, and `fold_duplicates` enables duplicate-subtree folding.
pub struct Config {
    pub pattern: Vec<u8>,
    pub anchor_group: usize,
    pub data_group: Option<usize>,
    pub skip_lines: usize,
    pub treat_first_nonmatch_as_heading: bool,
    pub fold_duplicates: bool,
}

/// Mathematical form of a configuration.
pub struct ConfigModel {
    pub pattern: Seq<u8>,
    pub anchor_group: int,
    pub data_group: Option<int>,
    pub skip_lines: int,
    pub treat_first_nonmatch_as_heading: bool,
    pub fold_duplicates: bool,
}

impl View for Config {
    type V = ConfigModel;

    open spec fn view(&self) -> ConfigModel {
        ConfigModel {
            pattern: self.pattern@,
            anchor_group: self.anchor_group as int,
            data_group: match self.data_group {
                Some(d) => Some(d as int),
                None => None,
            },
            skip_lines: self.skip_lines as int,
            treat_first_nonmatch_as_heading: self.treat_first_nonmatch_as_heading,
            fold_duplicates: self.fold_duplicates,
        }
    }
}

/// What matching `pattern` against `line` yields: `None` when the pattern
/// does not compile or does not match, otherwise one entry per capture group
/// (group 0 first), each either absent or the group's byte-offset span.
/// Matching is a function of the pattern and the line alone.
pub uninterp spec fn capture_spans(pattern: Seq<u8>, line: Seq<u8>) -> Option<
    Seq<Option<(usize, usize)>>,
>;

/// Lifts the wrapper's return value to the mathematical span list.
pub open spec fn spans_model(r: Option<Vec<Option<(usize, usize)>>>) -> Option<
    Seq<Option<(usize, usize)>>,
> {
    match r {
        Some(v) => Some(v@),
        None => None,
    }
}

/// Relies on `regex::Regex::new` and `regex::Regex::captures` (with
/// `regex::Captures::iter` and `regex::Match::start`/`end` reading the
/// result out): for a fixed pattern and line the outcome is determined by
/// the two alone, and each reported span is a byte range within the line
/// with start not past end, as the crate documents of `regex::Match`.
#[verifier::external_body]
fn regex_captures(pattern: &Vec<u8>, line: &Vec<u8>) -> (r: Option<Vec<Option<(usize, usize)>>>)
    ensures
        spans_model(r) == capture_spans(pattern@, line@),
        r matches Some(groups) ==> forall|i: int|
            0 <= i < groups@.len() ==> ((#[trigger] groups@[i]) matches Some(s) ==> s.0 <= s.1
                <= line@.len()),
{
    let p = std::str::from_utf8(pattern).ok()?;
    let l = std::str::from_utf8(line).ok()?;
    let re = regex::Regex::new(p).ok()?;
    let caps = re.captures(l)?;
    let spans: Vec<Option<(usize, usize)>> =
        caps.iter().map(|g| g.map(|m| (m.start(), m.end()))).collect();
    Some(spans)
}

/// Whether `b` starts a UTF-8 scalar value (it is not a continuation byte).
pub open spec fn scalar_start(b: u8) -> bool {
    !(128 <= b < 192)
}

/// The character column of byte offset `end` in `line`: the number of
/// Unicode scalar values encoded before it.
pub open spec fn char_col(line: Seq<u8>, end: int) -> int
    decreases end,
{
    if end <= 0 {
        0
    } else {
        char_col(line, end - 1) + if 0 <= end - 1 < line.len() && scalar_start(
            line[end - 1],
        ) {
            1int
        } else {
            0int
        }
    }
}

proof fn lemma_char_col_bounds(line: Seq<u8>, end: int)
    requires
        0 <= end,
    ensures
        0 <= char_col(line, end) <= end,
    decreases end,
{
    if end > 0 {
        lemma_char_col_bounds(line, end - 1);
    }
}

/// Counts the character column of byte offset `end` in `line`.
fn char_col_at(line: &Vec<u8>, end: usize) -> (r: usize)
    requires
        end <= line@.len(),
    ensures
        r == char_col(line@, end as int),
{
    let mut count: usize = 0;
    let mut i: usize = 0;
    while i < end
        invariant
            i <= end <= line@.len(),
            count == char_col(line@, i as int),
            count <= i,
        decreases end - i,
    {
        let b = line[i];
        if b < 128 || b >= 192 {
            count += 1;
        }
        i += 1;
    }
    count
}

/// The classification of `line` under `cfg`: `None` when the pattern does
/// not match, the anchor group is not captured, or a configured data group
/// is not captured in this match; otherwise the anchor column, the data
/// column and the label text.
pub open spec fn classify_model(cfg: ConfigModel, line: Seq<u8>) -> Option<(int, int, Seq<u8>)> {
    match capture_spans(cfg.pattern, line) {
        None => None,
        Some(groups) => {
            if !(0 <= cfg.anchor_group < groups.len()) {
                None
            } else {
                match groups[cfg.anchor_group] {
                    None => None,
                    Some(anchor) => match cfg.data_group {
                        Some(d) => {
                            if 0 <= d < groups.len() && groups[d] is Some {
                                let span = groups[d]->Some_0;
                                Some(
                                    (
                                        char_col(line, anchor.0 as int),
                                        char_col(line, span.0 as int),
                                        line.subrange(span.0 as int, span.1 as int),
                                    ),
                                )
                            } else {
                                None
                            }
                        },
                        None => Some(
                            (
                                char_col(line, anchor.0 as int),
                                char_col(line, anchor.1 as int),
                                line.subrange(anchor.1 as int, line.len() as int),
                            ),
                        ),
                    },
                }
            }
        },
    }
}

/// Lifts an executable classification to its mathematical form.
pub open spec fn class_model(r: Option<(usize, usize, Vec<u8>)>) -> Option<(int, int, Seq<u8>)> {
    match r {
        Some(t) => Some((t.0 as int, t.1 as int, t.2@)),
        None => None,
    }
}

/// Classifies one line under `cfg`.
pub fn classify_line(cfg: &Config, line: &Vec<u8>) -> (r: Option<(usize, usize, Vec<u8>)>)
    ensures
        class_model(r) == classify_model(cfg@, line@),
{
    let spans = regex_captures(&cfg.pattern, line);
    let groups = match spans {
        Some(g) => g,
        None => {
            return None;
        },
    };
    if cfg.anchor_group >= groups.len() {
        return None;
    }
    let anchor = match groups[cfg.anchor_group] {
        Some(a) => a,
        None => {
            return None;
        },
    };
    let (dstart, dend): (usize, usize) = match cfg.data_group {
        Some(d) => {
            if d >= groups.len() {
                return None;
            }
            match groups[d] {
                Some(s) => s,
                None => {
                    return None;
                },
            }
        },
        None => (anchor.1, line.len()),
    };
    let anchor_column = char_col_at(line, anchor.0);
    let data_column = char_col_at(line, dstart);
    let text = slice_to_vec(slice_subrange(line.as_slice(), dstart, dend));
    Some((anchor_column, data_column, text))
}

} // verus!
