//! The status text format: each line is a state token, a separator, and a
//! path. The model below fixes what parsing an entire status output yields:
//! a sequence of (path, state) pairs sorted by path without duplicates,
//! where unparseable lines are dropped and the earliest line wins a path.

use crate::text::is_sep;
use crate::text::lemma_lex_total;
use crate::text::lemma_lex_transitive;
use crate::text::lex_lt;
use crate::text::sep_char;
use crate::text::trim;
use crate::text::trim_copy;
use crate::text::copy_range;
use vstd::prelude::*;

verus! {

/// A parsed status line: the path and the one-letter state token.
pub type LineModel = (Seq<char>, Seq<char>);

/// Index of the first line break, or the length if there is none.
pub open spec fn find_nl(s: Seq<char>) -> int
    decreases s.len(),
{
    if s.len() == 0 {
        0
    } else if s[0] == '\n' {
        0
    } else {
        1 + find_nl(s.drop_first())
    }
}

/// Index of the first separator, or the length if there is none.
pub open spec fn find_sep_at(s: Seq<char>) -> int
    decreases s.len(),
{
    if s.len() == 0 {
        0
    } else if is_sep(s[0]) {
        0
    } else {
        1 + find_sep_at(s.drop_first())
    }
}

pub proof fn lemma_find_nl_bounds(s: Seq<char>)
    ensures
        0 <= find_nl(s) <= s.len(),
    decreases s.len(),
{
    if s.len() != 0 && s[0] != '\n' {
        lemma_find_nl_bounds(s.drop_first());
    }
}

/// `find_nl` is the least index holding a line break.
pub proof fn lemma_find_nl_at(s: Seq<char>, i: int)
    requires
        0 <= i <= s.len(),
        forall|k: int| 0 <= k < i ==> s[k] != '\n',
        i < s.len() ==> s[i] == '\n',
    ensures
        find_nl(s) == i,
    decreases i,
{
    if i == 0 {
    } else {
        lemma_find_nl_at(s.drop_first(), i - 1);
    }
}

pub proof fn lemma_find_sep_bounds(s: Seq<char>)
    ensures
        0 <= find_sep_at(s) <= s.len(),
    decreases s.len(),
{
    if s.len() != 0 && !is_sep(s[0]) {
        lemma_find_sep_bounds(s.drop_first());
    }
}

/// `find_sep_at` is the least index holding a separator.
pub proof fn lemma_find_sep_at(s: Seq<char>, i: int)
    requires
        0 <= i <= s.len(),
        forall|k: int| 0 <= k < i ==> !is_sep(s[k]),
        i < s.len() ==> is_sep(s[i]),
    ensures
        find_sep_at(s) == i,
    decreases i,
{
    if i == 0 {
    } else {
        lemma_find_sep_at(s.drop_first(), i - 1);
    }
}

/// One line parses to its state token (before the first separator) and its
/// path (the remainder, trimmed); a line without a separator yields nothing.
pub open spec fn parse_line(line: Seq<char>) -> Option<LineModel> {
    let i = find_sep_at(line);
    if i == line.len() {
        None
    } else {
        Some((trim(line.skip(i + 1)), line.take(i)))
    }
}

/// A line without a separator yields no entry.
pub proof fn lemma_line_without_separator_yields_no_entry(line: Seq<char>)
    requires
        forall|k: int| 0 <= k < line.len() ==> !is_sep(line[k]),
    ensures
        parse_line(line) is None,
{
    lemma_find_sep_at(line, line.len() as int);
}

/// Sorted strictly by path: no duplicate paths.
pub open spec fn status_sorted(m: Seq<LineModel>) -> bool {
    forall|i: int, j: int| 0 <= i < j < m.len() ==> lex_lt(m[i].0, m[j].0)
}

/// Inserts a parsed line into a path-sorted sequence; an already present
/// path keeps the entry that is there.
pub open spec fn insert_entry(p: LineModel, m: Seq<LineModel>) -> Seq<LineModel>
    decreases m.len(),
{
    if m.len() == 0 {
        seq![p]
    } else if lex_lt(p.0, m[0].0) {
        seq![p] + m
    } else if p.0 == m[0].0 {
        m
    } else {
        seq![m[0]] + insert_entry(p, m.drop_first())
    }
}

/// Whether some entry of `m` carries the path `q`.
pub open spec fn has_path(m: Seq<LineModel>, q: Seq<char>) -> bool {
    exists|i: int| 0 <= i < m.len() && m[i].0 == q
}

/// Paths present after an insertion: the old ones and the new one.
pub proof fn lemma_insert_entry_paths(p: LineModel, m: Seq<LineModel>)
    ensures
        forall|q: Seq<char>|
            #[trigger] has_path(insert_entry(p, m), q) <==> (q == p.0 || has_path(m, q)),
    decreases m.len(),
{
    let r = insert_entry(p, m);
    if m.len() == 0 {
        assert forall|q: Seq<char>| #[trigger]
            has_path(r, q) <==> (q == p.0 || has_path(m, q)) by {
            if q == p.0 {
                assert(r[0].0 == q);
            }
        }
    } else if lex_lt(p.0, m[0].0) {
        assert forall|q: Seq<char>| #[trigger]
            has_path(r, q) <==> (q == p.0 || has_path(m, q)) by {
            if has_path(r, q) {
                let i = choose|i: int| 0 <= i < r.len() && r[i].0 == q;
                if i > 0 {
                    assert(m[i - 1].0 == q);
                }
            }
            if q == p.0 {
                assert(r[0].0 == q);
            }
            if has_path(m, q) {
                let i = choose|i: int| 0 <= i < m.len() && m[i].0 == q;
                assert(r[i + 1].0 == q);
            }
        }
    } else if p.0 == m[0].0 {
        assert forall|q: Seq<char>| #[trigger]
            has_path(r, q) <==> (q == p.0 || has_path(m, q)) by {
            if q == p.0 {
                assert(r[0].0 == q);
            }
        }
    } else {
        lemma_insert_entry_paths(p, m.drop_first());
        let rr = insert_entry(p, m.drop_first());
        assert forall|q: Seq<char>| #[trigger]
            has_path(r, q) <==> (q == p.0 || has_path(m, q)) by {
            assert(r == seq![m[0]] + rr);
            if has_path(r, q) {
                let i = choose|i: int| 0 <= i < r.len() && r[i].0 == q;
                if i == 0 {
                    assert(m[0].0 == q);
                } else {
                    assert(rr[i - 1].0 == q);
                    assert(has_path(rr, q));
                    if q != p.0 {
                        let j = choose|j: int|
                            0 <= j < m.drop_first().len() && m.drop_first()[j].0 == q;
                        assert(m[j + 1].0 == q);
                    }
                }
            }
            if q == p.0 {
                assert(has_path(rr, q));
                let i = choose|i: int| 0 <= i < rr.len() && rr[i].0 == q;
                assert(r[i + 1].0 == q);
            }
            if has_path(m, q) {
                let i = choose|i: int| 0 <= i < m.len() && m[i].0 == q;
                if i == 0 {
                    assert(r[0].0 == q);
                } else {
                    assert(m.drop_first()[i - 1].0 == q);
                    assert(has_path(m.drop_first(), q));
                    assert(has_path(rr, q));
                    let j = choose|j: int| 0 <= j < rr.len() && rr[j].0 == q;
                    assert(r[j + 1].0 == q);
                }
            }
        }
    }
}

/// Insertion keeps the sequence strictly sorted by path.
pub proof fn lemma_insert_entry_sorted(p: LineModel, m: Seq<LineModel>)
    requires
        status_sorted(m),
    ensures
        status_sorted(insert_entry(p, m)),
    decreases m.len(),
{
    let r = insert_entry(p, m);
    if m.len() == 0 {
    } else if lex_lt(p.0, m[0].0) {
        assert forall|i: int, j: int| 0 <= i < j < r.len() implies lex_lt(r[i].0, r[j].0) by {
            if i == 0 {
                if j > 1 {
                    lemma_lex_transitive(p.0, m[0].0, m[j - 1].0);
                }
            }
        }
    } else if p.0 == m[0].0 {
    } else {
        lemma_lex_total(p.0, m[0].0);
        lemma_insert_entry_sorted(p, m.drop_first());
        let rr = insert_entry(p, m.drop_first());
        lemma_insert_entry_paths(p, m.drop_first());
        assert forall|i: int, j: int| 0 <= i < j < r.len() implies lex_lt(r[i].0, r[j].0) by {
            if i == 0 {
                assert(r[j].0 == rr[j - 1].0);
                let q = rr[j - 1].0;
                assert(has_path(rr, q));
                if q == p.0 {
                    assert(lex_lt(m[0].0, p.0));
                } else {
                    assert(has_path(m.drop_first(), q));
                    let k = choose|k: int| 0 <= k < m.drop_first().len() && m.drop_first()[k].0 == q;
                    assert(lex_lt(m[0].0, m[k + 1].0));
                }
            } else {
                assert(r[i].0 == rr[i - 1].0 && r[j].0 == rr[j - 1].0);
            }
        }
    }
}

/// Folds the raw status text line by line into the sorted parsed entries.
pub open spec fn build_status(acc: Seq<LineModel>, raw: Seq<char>) -> Seq<LineModel>
    decreases raw.len(),
    via build_status_decreases
{
    if raw.len() == 0 {
        acc
    } else {
        let i = find_nl(raw);
        let acc2 = match parse_line(raw.take(i)) {
            None => acc,
            Some(p) => insert_entry(p, acc),
        };
        if i >= raw.len() {
            acc2
        } else {
            build_status(acc2, raw.skip(i + 1))
        }
    }
}

#[via_fn]
proof fn build_status_decreases(acc: Seq<LineModel>, raw: Seq<char>) {
    lemma_find_nl_bounds(raw);
}

/// What an entire status output parses to.
pub open spec fn parse_status(raw: Seq<char>) -> Seq<LineModel> {
    build_status(Seq::empty(), raw)
}

/// Parses the characters of one line, given as `src[lo..hi]`.
pub fn parse_line_exec(src: &Vec<char>, lo: usize, hi: usize) -> (r: Option<(Vec<char>, Vec<char>)>)
    requires
        lo <= hi <= src@.len(),
    ensures
        match r {
            None => parse_line(src@.subrange(lo as int, hi as int)) is None,
            Some(fs) => {
                &&& parse_line(src@.subrange(lo as int, hi as int)) matches Some(p)
                &&& fs.0@ == p.0
                &&& fs.1@ == p.1
            },
        },
{
    let ghost line = src@.subrange(lo as int, hi as int);
    let mut k: usize = lo;
    while k < hi && !sep_char(src[k])
        invariant
            lo <= k <= hi <= src@.len(),
            forall|t: int| lo <= t < k ==> !is_sep(src@[t]),
        decreases hi - k,
    {
        k += 1;
    }
    proof {
        lemma_find_sep_at(line, k - lo);
    }
    if k == hi {
        return None;
    }
    let state = copy_range(src, lo, k);
    let file = trim_copy(src, k + 1, hi);
    proof {
        assert(line.take(k - lo) =~= src@.subrange(lo as int, k as int));
        assert(line.skip(k - lo + 1) =~= src@.subrange(k + 1, hi as int));
    }
    Some((file, state))
}

} // verus!
