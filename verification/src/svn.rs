//! The status-list state model: entries sorted by path, index selections,
//! the commit-message buffer, and the client that rebuilds the list from
//! fresh status output while preserving selections by path identity.

use crate::parse::build_status;
use crate::parse::has_path;
use crate::parse::insert_entry;
use crate::parse::lemma_find_nl_at;
use crate::parse::lemma_insert_entry_sorted;
use crate::parse::parse_line;
use crate::parse::parse_line_exec;
use crate::parse::parse_status;
use crate::parse::status_sorted;
use crate::parse::LineModel;
use crate::text::char_seq_eq;
use crate::text::char_seq_lt;
use crate::text::chars_of;
use crate::text::clone_chars;
use crate::text::is_blank;
use crate::text::lemma_lex_asymmetric;
use crate::text::lemma_lex_total;
use crate::text::lex_lt;
use crate::text::blank_char;
use vstd::prelude::*;
use vstd::string::StringExecFns;

verus! {

/// One file of the working copy and its one-letter status code.
pub struct SvnStatusEntry {
    pub file: Vec<char>,
    pub state: Vec<char>,
}

impl SvnStatusEntry {
    pub fn new(file: Vec<char>, state: Vec<char>) -> (e: Self)
        ensures
            e.file@ == file@,
            e.state@ == state@,
    {
        SvnStatusEntry { file, state }
    }
}

/// The (path, state) pair an entry stands for.
pub open spec fn entry_model(e: SvnStatusEntry) -> LineModel {
    (e.file@, e.state@)
}

/// The (path, state) pairs a sequence of entries stands for.
pub open spec fn entries_model(s: Seq<SvnStatusEntry>) -> Seq<LineModel> {
    s.map_values(|e: SvnStatusEntry| entry_model(e))
}

/// Whether `idx` occurs in the sequence of selected indices.
pub open spec fn index_in(s: Seq<usize>, idx: int) -> bool {
    exists|k: int| 0 <= k < s.len() && s[k] as int == idx
}

/// Whether every character of the sequence is blank.
pub open spec fn seq_blank(s: Seq<char>) -> bool {
    forall|k: int| 0 <= k < s.len() ==> is_blank(s[k])
}

/// The ordered entries, the selected indices, and the commit-message
/// buffer. Entries are kept strictly sorted by path; selections are kept
/// strictly ascending and within the entry range.
pub struct SvnStatusList {
    pub entries: Vec<SvnStatusEntry>,
    pub selections: Vec<usize>,
    pub commit_message: Vec<char>,
}

impl SvnStatusList {
    pub open spec fn wf(self) -> bool {
        &&& status_sorted(entries_model(self.entries@))
        &&& forall|i: int, j: int|
            0 <= i < j < self.selections@.len() ==> self.selections@[i] < self.selections@[j]
        &&& forall|i: int|
            0 <= i < self.selections@.len() ==> (#[trigger] self.selections@[i] as int)
                < self.entries@.len()
    }

    /// The commit-message buffer.
    pub open spec fn message(self) -> Seq<char> {
        self.commit_message@
    }

    /// Whether the entry at `idx` is selected.
    pub open spec fn selected(self, idx: int) -> bool {
        index_in(self.selections@, idx)
    }

    pub fn new(entries: Vec<SvnStatusEntry>, selections: Vec<usize>) -> (l: Self)
        ensures
            l.entries@ == entries@,
            l.selections@ == selections@,
            l.message() == Seq::<char>::empty(),
    {
        SvnStatusList { entries, selections, commit_message: Vec::new() }
    }

    pub fn commit_message(&self) -> (m: &Vec<char>)
        ensures
            m@ == self.message(),
    {
        &self.commit_message
    }

    /// Whether the entry at `idx` is currently selected.
    pub fn is_selected(&self, idx: usize) -> (r: bool)
        ensures
            r == self.selected(idx as int),
    {
        let n = self.selections.len();
        let mut k: usize = 0;
        while k < n
            invariant
                n == self.selections@.len(),
                k <= n,
                forall|t: int| 0 <= t < k ==> self.selections@[t] != idx,
            decreases n - k,
        {
            if self.selections[k] == idx {
                return true;
            }
            k += 1;
        }
        proof {
            if self.selected(idx as int) {
                let t = choose|t: int|
                    0 <= t < self.selections@.len() && self.selections@[t] as int == idx as int;
                assert(self.selections@[t] != idx);
            }
        }
        false
    }

    /// Flips whether the entry at `idx` is selected. Callers pass an index
    /// within the entry range.
    pub fn toggle_selection(&mut self, idx: usize)
        requires
            old(self).wf(),
            (idx as int) < old(self).entries@.len(),
        ensures
            final(self).wf(),
            final(self).entries@ == old(self).entries@,
            final(self).message() == old(self).message(),
            forall|i: int|
                #[trigger] final(self).selected(i) <==> (if i == idx as int {
                    !old(self).selected(i)
                } else {
                    old(self).selected(i)
                }),
    {
        let n = self.selections.len();
        let mut k: usize = 0;
        while k < n && self.selections[k] < idx
            invariant
                *self == *old(self),
                n == self.selections@.len(),
                k <= n,
                forall|t: int| 0 <= t < k ==> self.selections@[t] < idx,
            decreases n - k,
        {
            k += 1;
        }
        let ghost osel = self.selections@;
        let ghost elen = self.entries@.len();
        if k < n && self.selections[k] == idx {
            self.selections.remove(k);
            proof {
                osel.remove_ensures(k as int);
                let nsel = self.selections@;
                assert forall|i: int, j: int| 0 <= i < j < nsel.len() implies nsel[i] < nsel[j] by {
                    assert(nsel[i] == if i < k { osel[i] } else { osel[i + 1] });
                    assert(nsel[j] == if j < k { osel[j] } else { osel[j + 1] });
                }
                assert forall|i: int| 0 <= i < nsel.len() implies (#[trigger] nsel[i] as int)
                    < elen by {
                    assert(nsel[i] == if i < k { osel[i] } else { osel[i + 1] });
                }
                assert(index_in(osel, idx as int)) by {
                    assert(osel[k as int] as int == idx as int);
                }
                assert(!index_in(nsel, idx as int)) by {
                    if index_in(nsel, idx as int) {
                        let a = choose|a: int| 0 <= a < nsel.len() && nsel[a] as int == idx as int;
                        assert(nsel[a] == if a < k { osel[a] } else { osel[a + 1] });
                        if a < k {
                            assert(osel[a] < osel[k as int]);
                        } else {
                            assert(osel[k as int] < osel[a + 1]);
                        }
                    }
                }
                assert forall|i: int| i != idx as int implies (#[trigger] index_in(nsel, i)
                    <==> index_in(osel, i)) by {
                    if index_in(nsel, i) {
                        let a = choose|a: int| 0 <= a < nsel.len() && nsel[a] as int == i;
                        assert(nsel[a] == if a < k { osel[a] } else { osel[a + 1] });
                        if a < k {
                            assert(osel[a] as int == i);
                        } else {
                            assert(osel[a + 1] as int == i);
                        }
                    }
                    if index_in(osel, i) {
                        let t = choose|t: int| 0 <= t < osel.len() && osel[t] as int == i;
                        assert(t != k);
                        if t < k {
                            assert(nsel[t] == osel[t]);
                        } else {
                            assert(nsel[t - 1] == osel[t]);
                        }
                    }
                }
            }
        } else {
            proof {
                if k < n {
                    assert(osel[k as int] > idx);
                }
            }
            self.selections.insert(k, idx);
            proof {
                osel.insert_ensures(k as int, idx);
                let nsel = self.selections@;
                assert forall|i: int, j: int| 0 <= i < j < nsel.len() implies nsel[i] < nsel[j] by {
                    assert(nsel[i] == if i < k {
                        osel[i]
                    } else if i == k {
                        idx
                    } else {
                        osel[i - 1]
                    });
                    assert(nsel[j] == if j < k {
                        osel[j]
                    } else if j == k {
                        idx
                    } else {
                        osel[j - 1]
                    });
                    if i < k && j > k {
                        assert(osel[i] < idx);
                        assert(osel[j - 1] > idx || (k as int == j - 1 && false)) by {
                            if j - 1 > k {
                                assert(osel[k as int] < osel[j - 1]);
                            }
                        }
                    }
                }
                assert forall|i: int| 0 <= i < nsel.len() implies (#[trigger] nsel[i] as int)
                    < elen by {
                    assert(nsel[i] == if i < k {
                        osel[i]
                    } else if i == k {
                        idx
                    } else {
                        osel[i - 1]
                    });
                }
                assert(index_in(nsel, idx as int)) by {
                    assert(nsel[k as int] as int == idx as int);
                }
                assert(!index_in(osel, idx as int)) by {
                    if index_in(osel, idx as int) {
                        let t = choose|t: int| 0 <= t < osel.len() && osel[t] as int == idx as int;
                        if t < k {
                            assert(osel[t] < idx);
                        } else if t == k {
                        } else {
                            assert(osel[k as int] < osel[t]);
                        }
                    }
                }
                assert forall|i: int| i != idx as int implies (#[trigger] index_in(nsel, i)
                    <==> index_in(osel, i)) by {
                    if index_in(nsel, i) {
                        let a = choose|a: int| 0 <= a < nsel.len() && nsel[a] as int == i;
                        assert(nsel[a] == if a < k {
                            osel[a]
                        } else if a == k {
                            idx
                        } else {
                            osel[a - 1]
                        });
                        if a < k {
                            assert(osel[a] as int == i);
                        } else if a > k {
                            assert(osel[a - 1] as int == i);
                        }
                    }
                    if index_in(osel, i) {
                        let t = choose|t: int| 0 <= t < osel.len() && osel[t] as int == i;
                        if t < k {
                            assert(nsel[t] == osel[t]);
                        } else {
                            assert(nsel[t + 1] == osel[t]);
                        }
                    }
                }
            }
        }
    }

    /// Removes the selection whose position among the selected entries,
    /// taken in file order, equals `ordinal`; out of range, it is a no-op.
    /// Selections ascend by index and entries are sorted by path, so the
    /// position in file order is the position in the selection sequence.
    pub fn toggle_selection_by_file(&mut self, ordinal: usize)
        requires
            old(self).wf(),
        ensures
            final(self).wf(),
            final(self).entries@ == old(self).entries@,
            final(self).message() == old(self).message(),
            (ordinal as int) < old(self).selections@.len() ==> final(self).selections@ == old(
                self,
            ).selections@.remove(ordinal as int),
            (ordinal as int) >= old(self).selections@.len() ==> final(self).selections@ == old(
                self,
            ).selections@,
    {
        let ghost osel = self.selections@;
        if ordinal < self.selections.len() {
            self.selections.remove(ordinal);
            proof {
                osel.remove_ensures(ordinal as int);
                let nsel = self.selections@;
                assert forall|i: int, j: int| 0 <= i < j < nsel.len() implies nsel[i] < nsel[j] by {
                    assert(nsel[i] == if i < ordinal { osel[i] } else { osel[i + 1] });
                    assert(nsel[j] == if j < ordinal { osel[j] } else { osel[j + 1] });
                }
            }
        }
    }

    pub fn clear_commit_message(&mut self)
        ensures
            final(self).entries@ == old(self).entries@,
            final(self).selections@ == old(self).selections@,
            final(self).message() == Seq::<char>::empty(),
            old(self).wf() ==> final(self).wf(),
    {
        self.commit_message.clear();
    }

    pub fn push_char_to_commit_message(&mut self, c: char)
        ensures
            final(self).entries@ == old(self).entries@,
            final(self).selections@ == old(self).selections@,
            final(self).message() == old(self).message().push(c),
            old(self).wf() ==> final(self).wf(),
    {
        self.commit_message.push(c);
    }

    pub fn pop_char_from_commit_message(&mut self)
        ensures
            final(self).entries@ == old(self).entries@,
            final(self).selections@ == old(self).selections@,
            old(self).message().len() > 0 ==> final(self).message() == old(self).message().drop_last(),
            old(self).message().len() == 0 ==> final(self).message() == old(self).message(),
            old(self).wf() ==> final(self).wf(),
    {
        self.commit_message.pop();
        proof {
            if old(self).message().len() > 0 {
                assert(self.commit_message@ =~= old(self).message().drop_last());
            }
        }
    }

    pub fn set_commit_message(&mut self, message: Vec<char>)
        ensures
            final(self).entries@ == old(self).entries@,
            final(self).selections@ == old(self).selections@,
            final(self).message() == message@,
            old(self).wf() ==> final(self).wf(),
    {
        self.commit_message = message;
    }

    /// The selected entries, in file order: the projection the "Selected"
    /// panel shows.
    pub fn selected_entries(&self) -> (v: Vec<SvnStatusEntry>)
        requires
            self.wf(),
        ensures
            v@.len() == self.selections@.len(),
            forall|k: int|
                0 <= k < v@.len() ==> entry_model(#[trigger] v@[k]) == entry_model(
                    self.entries@[self.selections@[k] as int],
                ),
            forall|k1: int, k2: int|
                0 <= k1 < k2 < v@.len() ==> lex_lt(v@[k1].file@, v@[k2].file@),
    {
        let n = self.selections.len();
        let mut v: Vec<SvnStatusEntry> = Vec::new();
        let mut k: usize = 0;
        while k < n
            invariant
                self.wf(),
                n == self.selections@.len(),
                k <= n,
                v@.len() == k,
                forall|t: int|
                    0 <= t < k ==> entry_model(#[trigger] v@[t]) == entry_model(
                        self.entries@[self.selections@[t] as int],
                    ),
            decreases n - k,
        {
            let idx = self.selections[k];
            let e = &self.entries[idx];
            v.push(SvnStatusEntry::new(clone_chars(&e.file), clone_chars(&e.state)));
            k += 1;
        }
        proof {
            let model = entries_model(self.entries@);
            assert forall|k1: int, k2: int| 0 <= k1 < k2 < v@.len() implies lex_lt(
                v@[k1].file@,
                v@[k2].file@,
            ) by {
                let s1 = self.selections@[k1] as int;
                let s2 = self.selections@[k2] as int;
                assert(s1 < s2);
                assert(lex_lt(model[s1].0, model[s2].0));
                assert(v@[k1].file@ == model[s1].0);
                assert(v@[k2].file@ == model[s2].0);
            }
        }
        v
    }
}

/// Whether some selected index of `l` names an entry with path `q`.
pub open spec fn path_selected(l: SvnStatusList, q: Seq<char>) -> bool {
    exists|k: int|
        0 <= k < l.selections@.len() && (l.selections@[k] as int) < l.entries@.len()
            && l.entries@[l.selections@[k] as int].file@ == q
}

/// Why a commit was not issued, or why it failed.
#[derive(Debug, PartialEq)]
pub enum CommitError {
    EmptyCommitMessage,
    NoFilesSelected,
    CommitFailed(String),
}

/// What a status query yields: the parsed output on success, no entries on
/// failure (a failed refresh is best-effort and leaves an empty list).
pub open spec fn status_of(raw: Result<String, String>) -> Seq<LineModel> {
    match raw {
        Ok(s) => parse_status(s@),
        Err(_) => Seq::empty(),
    }
}

/// How a finished refresh relates the client before and after: the entries
/// are the parsed fresh status, a new entry is selected exactly when its
/// path was selected before, and the commit message survives.
pub open spec fn refresh_post(pre: SvnClient, post: SvnClient, raw: Result<String, String>) -> bool {
    &&& post.status.wf()
    &&& entries_model(post.status.entries@) == status_of(raw)
    &&& forall|i: int|
        0 <= i < post.status.entries@.len() ==> (#[trigger] post.status.selected(i)
            <==> path_selected(pre.status, post.status.entries@[i].file@))
    &&& post.status.message() == pre.status.message()
    &&& post.working_dir() == pre.working_dir()
}

/// The client: one working-copy path and one status list.
pub struct SvnClient {
    pub working_copy: String,
    pub status: SvnStatusList,
}

impl SvnClient {
    pub open spec fn wf(self) -> bool {
        self.status.wf()
    }

    /// The working-copy path commands run in.
    pub open spec fn working_dir(self) -> Seq<char> {
        self.working_copy@
    }

    pub fn new(working_copy: String) -> (c: Self)
        ensures
            c.wf(),
            c.working_dir() == working_copy@,
            c.status.entries@.len() == 0,
            c.status.selections@.len() == 0,
            c.status.message() == Seq::<char>::empty(),
    {
        let c = SvnClient {
            working_copy,
            status: SvnStatusList::new(Vec::new(), Vec::new()),
        };
        proof {
            assert(entries_model(c.status.entries@) =~= Seq::<LineModel>::empty());
        }
        c
    }

    pub fn working_copy(&self) -> (r: &String)
        ensures
            r@ == self.working_dir(),
    {
        &self.working_copy
    }

    /// Parses raw status output into entries sorted by path; a failed
    /// query yields no entries.
    pub fn svn_status(&self, raw: Result<String, String>) -> (entries: Vec<SvnStatusEntry>)
        ensures
            entries_model(entries@) == status_of(raw),
            status_sorted(entries_model(entries@)),
    {
        match raw {
            Ok(out) => parse_status_output(&out),
            Err(_) => {
                let v: Vec<SvnStatusEntry> = Vec::new();
                proof {
                    assert(entries_model(v@) =~= Seq::<LineModel>::empty());
                }
                v
            },
        }
    }

    /// First population: fresh entries, nothing selected, empty message.
    pub fn init_svn_status(&mut self, raw: Result<String, String>)
        ensures
            final(self).wf(),
            entries_model(final(self).status.entries@) == status_of(raw),
            final(self).status.selections@.len() == 0,
            final(self).status.message() == Seq::<char>::empty(),
            final(self).working_dir() == old(self).working_dir(),
    {
        let entries = self.svn_status(raw);
        self.status = SvnStatusList::new(entries, Vec::new());
    }

    /// Rebuilds the list from fresh status output. A path selected before
    /// stays selected exactly when it still appears; the commit message is
    /// carried forward.
    pub fn refresh_svn_status(&mut self, raw: Result<String, String>)
        requires
            old(self).wf(),
        ensures
            final(self).wf(),
            refresh_post(*old(self), *final(self), raw),
    {
        let new_entries = self.svn_status(raw);
        let nsel = self.selections_for(&new_entries);
        let saved = clone_chars(&self.status.commit_message);
        let mut list = SvnStatusList::new(new_entries, nsel);
        list.set_commit_message(saved);
        self.status = list;
    }

    /// The indices of `new_entries` whose path is currently selected.
    fn selections_for(&self, new_entries: &Vec<SvnStatusEntry>) -> (nsel: Vec<usize>)
        requires
            self.wf(),
        ensures
            forall|i: int, j: int| 0 <= i < j < nsel@.len() ==> nsel@[i] < nsel@[j],
            forall|i: int|
                0 <= i < nsel@.len() ==> (#[trigger] nsel@[i] as int) < new_entries@.len(),
            forall|i: int|
                0 <= i < new_entries@.len() ==> (#[trigger] index_in(nsel@, i) <==> path_selected(
                    self.status,
                    new_entries@[i].file@,
                )),
    {
        let n = self.status.selections.len();
        let mut sel_paths: Vec<Vec<char>> = Vec::new();
        let mut k: usize = 0;
        while k < n
            invariant
                self.wf(),
                n == self.status.selections@.len(),
                k <= n,
                sel_paths@.len() == k,
                forall|t: int|
                    0 <= t < k ==> (#[trigger] sel_paths@[t])@ == self.status.entries@[self.status.selections@[t] as int].file@,
            decreases n - k,
        {
            let idx = self.status.selections[k];
            sel_paths.push(clone_chars(&self.status.entries[idx].file));
            k += 1;
        }
        proof {
            assert forall|q: Seq<char>| #[trigger]
                vec_has_path(sel_paths@, q) <==> path_selected(self.status, q) by {
                if vec_has_path(sel_paths@, q) {
                    let t = choose|t: int| 0 <= t < sel_paths@.len() && sel_paths@[t]@ == q;
                    assert(self.status.entries@[self.status.selections@[t] as int].file@ == q);
                }
                if path_selected(self.status, q) {
                    let t = choose|t: int|
                        0 <= t < self.status.selections@.len() && (self.status.selections@[t] as int)
                            < self.status.entries@.len()
                            && self.status.entries@[self.status.selections@[t] as int].file@ == q;
                    assert(sel_paths@[t]@ == q);
                }
            }
        }
        let m = new_entries.len();
        let mut nsel: Vec<usize> = Vec::new();
        let mut i: usize = 0;
        while i < m
            invariant
                m == new_entries@.len(),
                i <= m,
                forall|a: int, b: int| 0 <= a < b < nsel@.len() ==> nsel@[a] < nsel@[b],
                forall|a: int| 0 <= a < nsel@.len() ==> (#[trigger] nsel@[a] as int) < i,
                forall|t: int|
                    0 <= t < i ==> (#[trigger] index_in(nsel@, t) <==> vec_has_path(
                        sel_paths@,
                        new_entries@[t].file@,
                    )),
                forall|q: Seq<char>| #[trigger]
                    vec_has_path(sel_paths@, q) <==> path_selected(self.status, q),
            decreases m - i,
        {
            let ghost prev = nsel@;
            if contains_path(&sel_paths, &new_entries[i].file) {
                nsel.push(i);
                proof {
                    assert(nsel@[prev.len() as int] == i);
                    assert(index_in(nsel@, i as int));
                }
            }
            proof {
                assert forall|t: int|
                    0 <= t < i + 1 implies (#[trigger] index_in(nsel@, t) <==> vec_has_path(
                        sel_paths@,
                        new_entries@[t].file@,
                    )) by {
                    if t < i {
                        if index_in(prev, t) {
                            let a = choose|a: int| 0 <= a < prev.len() && prev[a] as int == t;
                            assert(nsel@[a] as int == t);
                        }
                        if index_in(nsel@, t) {
                            let a = choose|a: int| 0 <= a < nsel@.len() && nsel@[a] as int == t;
                            if a < prev.len() {
                                assert(prev[a] as int == t);
                            }
                        }
                    }
                }
            }
            i += 1;
        }
        nsel
    }

    /// Checks the commit preconditions and builds the commit command: a
    /// blank message or an empty selection fails without issuing anything;
    /// otherwise the arguments are the message and the selected paths in
    /// file order. Callers run the command, then finish with
    /// `push_basic_commit`.
    pub fn commit_command(&self) -> (r: Result<Vec<Vec<char>>, CommitError>)
        requires
            self.wf(),
        ensures
            seq_blank(self.status.message()) <==> r == Err::<Vec<Vec<char>>, CommitError>(
                CommitError::EmptyCommitMessage,
            ),
            !seq_blank(self.status.message()) && self.status.selections@.len() == 0 <==> r
                == Err::<Vec<Vec<char>>, CommitError>(CommitError::NoFilesSelected),
            !seq_blank(self.status.message()) && self.status.selections@.len() > 0 ==> (r matches Ok(
                args,
            ) && args@.len() == 3 + self.status.selections@.len() && args@[0]@ == "commit"@
                && args@[1]@ == "-m"@ && args@[2]@ == self.status.message() && forall|t: int|
                0 <= t < self.status.selections@.len() ==> args@[3 + t]@
                    == self.status.entries@[#[trigger] self.status.selections@[t] as int].file@),
    {
        if message_blank(&self.status.commit_message) {
            return Err(CommitError::EmptyCommitMessage);
        }
        if self.status.selections.len() == 0 {
            return Err(CommitError::NoFilesSelected);
        }
        let mut args: Vec<Vec<char>> = Vec::new();
        args.push(chars_of("commit"));
        args.push(chars_of("-m"));
        args.push(clone_chars(&self.status.commit_message));
        let n = self.status.selections.len();
        let mut k: usize = 0;
        while k < n
            invariant
                self.wf(),
                n == self.status.selections@.len(),
                k <= n,
                args@.len() == 3 + k,
                args@[0]@ == "commit"@,
                args@[1]@ == "-m"@,
                args@[2]@ == self.status.message(),
                forall|t: int|
                    0 <= t < k ==> args@[3 + t]@
                        == self.status.entries@[#[trigger] self.status.selections@[t] as int].file@,
            decreases n - k,
        {
            let idx = self.status.selections[k];
            args.push(clone_chars(&self.status.entries[idx].file));
            k += 1;
        }
        Ok(args)
    }

    /// Completes a commit whose command has run: rebuilds the list from the
    /// fresh status output and surfaces a failed command as `CommitFailed`
    /// with its diagnostic text.
    pub fn push_basic_commit(
        &mut self,
        command_result: Result<String, String>,
        status_raw: Result<String, String>,
    ) -> (r: Result<bool, CommitError>)
        requires
            old(self).wf(),
        ensures
            final(self).wf(),
            refresh_post(*old(self), *final(self), status_raw),
            command_result matches Ok(_) ==> r == Ok::<bool, CommitError>(true),
            command_result matches Err(e) ==> r == Err::<bool, CommitError>(
                CommitError::CommitFailed(e),
            ),
    {
        self.refresh_svn_status(status_raw);
        match command_result {
            Ok(_) => Ok(true),
            Err(e) => Err(CommitError::CommitFailed(e)),
        }
    }

    /// Builds the add command for the entry at `idx`: just `add` when the
    /// index is out of range. Callers run it, then refresh.
    pub fn add_to_svn(&self, idx: usize) -> (args: Vec<Vec<char>>)
        ensures
            (idx as int) < self.status.entries@.len() ==> args@.len() == 2 && args@[1]@
                == self.status.entries@[idx as int].file@,
            (idx as int) >= self.status.entries@.len() ==> args@.len() == 1,
            args@[0]@ == "add"@,
    {
        let mut args: Vec<Vec<char>> = Vec::new();
        args.push(chars_of("add"));
        if idx < self.status.entries.len() {
            args.push(clone_chars(&self.status.entries[idx].file));
        }
        args
    }

    /// Builds the revert command for the entry at `idx`: just `revert`
    /// when the index is out of range. Callers run it, then refresh.
    pub fn revert_to_svn(&self, idx: usize) -> (args: Vec<Vec<char>>)
        ensures
            (idx as int) < self.status.entries@.len() ==> args@.len() == 2 && args@[1]@
                == self.status.entries@[idx as int].file@,
            (idx as int) >= self.status.entries@.len() ==> args@.len() == 1,
            args@[0]@ == "revert"@,
    {
        let mut args: Vec<Vec<char>> = Vec::new();
        args.push(chars_of("revert"));
        if idx < self.status.entries.len() {
            args.push(clone_chars(&self.status.entries[idx].file));
        }
        args
    }
}

impl Default for SvnClient {
    /// A client for the current directory.
    fn default() -> (c: Self)
        ensures
            c.wf(),
            c.working_dir() == "."@,
            c.status.entries@.len() == 0,
            c.status.selections@.len() == 0,
            c.status.message() == Seq::<char>::empty(),
    {
        SvnClient::new(String::from_str("."))
    }
}

/// Whether some element of `paths` views to `q`.
pub open spec fn vec_has_path(paths: Seq<Vec<char>>, q: Seq<char>) -> bool {
    exists|j: int| 0 <= j < paths.len() && paths[j]@ == q
}

fn contains_path(paths: &Vec<Vec<char>>, q: &Vec<char>) -> (r: bool)
    ensures
        r == vec_has_path(paths@, q@),
{
    let n = paths.len();
    let mut j: usize = 0;
    while j < n
        invariant
            n == paths@.len(),
            j <= n,
            forall|t: int| 0 <= t < j ==> (#[trigger] paths@[t])@ != q@,
        decreases n - j,
    {
        if char_seq_eq(&paths[j], q) {
            return true;
        }
        j += 1;
    }
    proof {
        if vec_has_path(paths@, q@) {
            let t = choose|t: int| 0 <= t < paths@.len() && paths@[t]@ == q@;
            assert(paths@[t]@ != q@);
        }
    }
    false
}

fn message_blank(msg: &Vec<char>) -> (r: bool)
    ensures
        r == seq_blank(msg@),
{
    let n = msg.len();
    let mut k: usize = 0;
    while k < n
        invariant
            n == msg@.len(),
            k <= n,
            forall|t: int| 0 <= t < k ==> is_blank(msg@[t]),
        decreases n - k,
    {
        if !blank_char(msg[k]) {
            return false;
        }
        k += 1;
    }
    true
}

/// Parses an entire status output: the entries, sorted by path, with the
/// earliest line winning a duplicated path.
fn parse_status_output(out: &String) -> (v: Vec<SvnStatusEntry>)
    ensures
        entries_model(v@) == parse_status(out@),
        status_sorted(entries_model(v@)),
{
    let chars = chars_of(out.as_str());
    let n = chars.len();
    let mut acc: Vec<SvnStatusEntry> = Vec::new();
    let mut pos: usize = 0;
    proof {
        assert(entries_model(acc@) =~= Seq::<LineModel>::empty());
        assert(chars@.skip(0) =~= chars@);
    }
    while pos < n
        invariant
            n == chars@.len(),
            pos <= n,
            status_sorted(entries_model(acc@)),
            build_status(entries_model(acc@), chars@.skip(pos as int)) == parse_status(chars@),
        decreases n - pos,
    {
        let ghost rest = chars@.skip(pos as int);
        let mut j: usize = pos;
        while j < n && chars[j] != '\n'
            invariant
                n == chars@.len(),
                pos <= j <= n,
                forall|t: int| pos <= t < j ==> chars@[t] != '\n',
            decreases n - j,
        {
            j += 1;
        }
        proof {
            lemma_find_nl_at(rest, j - pos);
            assert(rest.take(j - pos) =~= chars@.subrange(pos as int, j as int));
        }
        let parsed = parse_line_exec(&chars, pos, j);
        let ghost acc_model = entries_model(acc@);
        match parsed {
            Some(fs) => {
                let (file, state) = fs;
                insert_entry_exec(&mut acc, SvnStatusEntry { file, state });
            },
            None => {},
        }
        proof {
            let line = rest.take(j - pos);
            match parse_line(line) {
                Some(p) => {
                    assert(entries_model(acc@) == insert_entry(p, acc_model));
                },
                None => {
                    assert(entries_model(acc@) == acc_model);
                },
            }
        }
        if j < n {
            proof {
                assert(rest.skip(j - pos + 1) =~= chars@.skip(j + 1));
            }
            pos = j + 1;
        } else {
            pos = n;
        }
    }
    proof {
        assert(chars@.skip(n as int) =~= Seq::<char>::empty());
    }
    acc
}

/// Characterizes `insert_entry` by the insertion position the executable
/// search finds.
proof fn lemma_insert_entry_at(p: LineModel, m: Seq<LineModel>, k: int)
    requires
        status_sorted(m),
        0 <= k <= m.len(),
        forall|t: int| 0 <= t < k ==> lex_lt(m[t].0, p.0),
        k < m.len() ==> !lex_lt(m[k].0, p.0),
    ensures
        insert_entry(p, m) == (if k < m.len() && m[k].0 == p.0 {
            m
        } else {
            m.insert(k, p)
        }),
    decreases k,
{
    if m.len() == 0 {
        assert(insert_entry(p, m) =~= m.insert(0, p));
    } else if k == 0 {
        lemma_lex_total(p.0, m[0].0);
        if lex_lt(p.0, m[0].0) {
            assert(insert_entry(p, m) =~= m.insert(0, p));
        } else if p.0 == m[0].0 {
        } else {
            assert(false);
        }
    } else {
        assert(lex_lt(m[0].0, p.0));
        lemma_lex_asymmetric(m[0].0, p.0);
        let mm = m.drop_first();
        assert forall|t: int| 0 <= t < k - 1 implies lex_lt(mm[t].0, p.0) by {
            assert(mm[t] == m[t + 1]);
        }
        lemma_insert_entry_at(p, mm, k - 1);
        if k < m.len() && m[k].0 == p.0 {
            assert(mm[k - 1].0 == p.0);
            assert(insert_entry(p, m) =~= m);
        } else {
            assert(insert_entry(p, m) =~= m.insert(k, p)) by {
                assert(insert_entry(p, m) == seq![m[0]] + insert_entry(p, mm));
                assert(insert_entry(p, mm) == mm.insert(k - 1, p));
                mm.insert_ensures(k - 1, p);
                m.insert_ensures(k, p);
            }
        }
    }
}

fn insert_entry_exec(acc: &mut Vec<SvnStatusEntry>, e: SvnStatusEntry)
    requires
        status_sorted(entries_model(old(acc)@)),
    ensures
        entries_model(final(acc)@) == insert_entry(entry_model(e), entries_model(old(acc)@)),
        status_sorted(entries_model(final(acc)@)),
{
    let ghost m = entries_model(acc@);
    let n = acc.len();
    let mut k: usize = 0;
    while k < n && char_seq_lt(&acc[k].file, &e.file)
        invariant
            *acc == *old(acc),
            m == entries_model(acc@),
            n == acc@.len(),
            k <= n,
            forall|t: int| 0 <= t < k ==> lex_lt(#[trigger] m[t].0, e.file@),
        decreases n - k,
    {
        k += 1;
    }
    proof {
        lemma_insert_entry_at(entry_model(e), m, k as int);
        lemma_insert_entry_sorted(entry_model(e), m);
    }
    if k < n && char_seq_eq(&acc[k].file, &e.file) {
        return ;
    }
    let ghost oacc = acc@;
    acc.insert(k, e);
    proof {
        assert(entries_model(acc@) =~= entries_model(oacc).insert(k as int, entry_model(e))) by {
            oacc.insert_ensures(k as int, e);
            entries_model(oacc).insert_ensures(k as int, entry_model(e));
        }
    }
}

/// Two strictly ascending index sequences with the same members are equal.
pub proof fn lemma_sorted_unique_equal(a: Seq<usize>, b: Seq<usize>)
    requires
        forall|i: int, j: int| 0 <= i < j < a.len() ==> a[i] < a[j],
        forall|i: int, j: int| 0 <= i < j < b.len() ==> b[i] < b[j],
        forall|t: int| #[trigger] index_in(a, t) <==> index_in(b, t),
    ensures
        a == b,
    decreases a.len(),
{
    if a.len() == 0 {
        if b.len() > 0 {
            assert(index_in(b, b[0] as int));
            assert(index_in(a, b[0] as int));
        }
        assert(a =~= b);
    } else if b.len() == 0 {
        assert(index_in(a, a[0] as int));
        assert(index_in(b, a[0] as int));
    } else {
        assert(index_in(a, a[0] as int));
        assert(index_in(b, a[0] as int));
        let jb = choose|j: int| 0 <= j < b.len() && b[j] as int == a[0] as int;
        if jb > 0 {
            assert(b[0] < b[jb]);
        }
        assert(index_in(b, b[0] as int));
        assert(index_in(a, b[0] as int));
        let ja = choose|j: int| 0 <= j < a.len() && a[j] as int == b[0] as int;
        if ja > 0 {
            assert(a[0] < a[ja]);
        }
        assert(a[0] == b[0]);
        let aa = a.drop_first();
        let bb = b.drop_first();
        assert forall|t: int| #[trigger] index_in(aa, t) <==> index_in(bb, t) by {
            if index_in(aa, t) {
                let i = choose|i: int| 0 <= i < aa.len() && aa[i] as int == t;
                assert(a[i + 1] as int == t);
                assert(index_in(a, t));
                assert(index_in(b, t));
                let j = choose|j: int| 0 <= j < b.len() && b[j] as int == t;
                assert(a[0] < a[i + 1]);
                if j == 0 {
                    assert(false);
                }
                assert(bb[j - 1] as int == t);
                assert(index_in(bb, t));
            }
            if index_in(bb, t) {
                let i = choose|i: int| 0 <= i < bb.len() && bb[i] as int == t;
                assert(b[i + 1] as int == t);
                assert(index_in(b, t));
                assert(index_in(a, t));
                let j = choose|j: int| 0 <= j < a.len() && a[j] as int == t;
                assert(b[0] < b[i + 1]);
                if j == 0 {
                    assert(false);
                }
                assert(aa[j - 1] as int == t);
                assert(index_in(aa, t));
            }
        }
        assert forall|i: int, j: int| 0 <= i < j < aa.len() implies aa[i] < aa[j] by {
            assert(a[i + 1] < a[j + 1]);
        }
        assert forall|i: int, j: int| 0 <= i < j < bb.len() implies bb[i] < bb[j] by {
            assert(b[i + 1] < b[j + 1]);
        }
        lemma_sorted_unique_equal(aa, bb);
        assert forall|i: int| 0 <= i < a.len() implies a[i] == b[i] by {
            if i > 0 {
                assert(aa[i - 1] == bb[i - 1]);
            }
        }
        assert(a =~= b);
    }
}

/// Across any refresh, a path is selected afterwards exactly when it was
/// selected before and still appears in the fresh entries: reordering
/// never loses a selection, a vanished path is implicitly deselected, and
/// a new path is never selected on its own.
pub proof fn lemma_refresh_selects_by_prior_path(
    pre: SvnClient,
    post: SvnClient,
    raw: Result<String, String>,
    q: Seq<char>,
)
    requires
        pre.wf(),
        refresh_post(pre, post, raw),
    ensures
        path_selected(post.status, q) <==> (path_selected(pre.status, q) && has_path(
            entries_model(post.status.entries@),
            q,
        )),
{
    let model = entries_model(post.status.entries@);
    if path_selected(post.status, q) {
        let k = choose|k: int|
            0 <= k < post.status.selections@.len() && (post.status.selections@[k] as int)
                < post.status.entries@.len()
                && post.status.entries@[post.status.selections@[k] as int].file@ == q;
        let i = post.status.selections@[k] as int;
        assert(model[i].0 == q);
        assert(has_path(model, q));
        assert(post.status.selected(i));
        assert(path_selected(pre.status, q));
    }
    if path_selected(pre.status, q) && has_path(model, q) {
        let i = choose|i: int| 0 <= i < model.len() && model[i].0 == q;
        assert(post.status.entries@[i].file@ == q);
        assert(post.status.selected(i) <==> path_selected(pre.status, q));
        let k = choose|k: int|
            0 <= k < post.status.selections@.len() && post.status.selections@[k] as int == i;
        assert((post.status.selections@[k] as int) < post.status.entries@.len());
        assert(path_selected(post.status, q));
    }
}

/// Refreshing a second time with the same status output changes nothing:
/// the entries, the selections, and the commit message all stay as the
/// first refresh left them.
pub proof fn lemma_refresh_idempotent(
    c0: SvnClient,
    c1: SvnClient,
    c2: SvnClient,
    raw: Result<String, String>,
)
    requires
        c0.wf(),
        refresh_post(c0, c1, raw),
        refresh_post(c1, c2, raw),
    ensures
        entries_model(c2.status.entries@) == entries_model(c1.status.entries@),
        c2.status.selections@ == c1.status.selections@,
        c2.status.message() == c1.status.message(),
{
    let m1 = entries_model(c1.status.entries@);
    let m2 = entries_model(c2.status.entries@);
    assert(m1 == m2);
    assert(c1.status.entries@.len() == c2.status.entries@.len()) by {
        assert(m1.len() == c1.status.entries@.len());
        assert(m2.len() == c2.status.entries@.len());
    }
    assert forall|t: int| #[trigger]
        index_in(c2.status.selections@, t) <==> index_in(c1.status.selections@, t) by {
        let n = c2.status.entries@.len();
        if index_in(c2.status.selections@, t) {
            let k = choose|k: int|
                0 <= k < c2.status.selections@.len() && c2.status.selections@[k] as int == t;
            assert(0 <= t < n);
            assert(c2.status.selected(t));
            assert(path_selected(c1.status, c2.status.entries@[t].file@));
            let j = choose|j: int|
                0 <= j < c1.status.selections@.len() && (c1.status.selections@[j] as int)
                    < c1.status.entries@.len() && c1.status.entries@[c1.status.selections@[j] as int].file@
                    == c2.status.entries@[t].file@;
            let jt = c1.status.selections@[j] as int;
            assert(m1[jt].0 == m2[t].0);
            if jt != t {
                if jt < t {
                    assert(lex_lt(m1[jt].0, m1[t].0));
                } else {
                    assert(lex_lt(m1[t].0, m1[jt].0));
                }
                lemma_lex_asymmetric(m1[t].0, m1[t].0);
            }
            assert(c1.status.selected(t));
        }
        if index_in(c1.status.selections@, t) {
            let k = choose|k: int|
                0 <= k < c1.status.selections@.len() && c1.status.selections@[k] as int == t;
            assert(0 <= t < c1.status.entries@.len());
            assert(c1.status.selected(t));
            assert(path_selected(c1.status, c1.status.entries@[t].file@)) by {
                assert((c1.status.selections@[k] as int) < c1.status.entries@.len());
            }
            assert(m2[t].0 == m1[t].0);
            assert(c2.status.entries@[t].file@ == c1.status.entries@[t].file@);
            assert(c2.status.selected(t));
        }
    }
    lemma_sorted_unique_equal(c2.status.selections@, c1.status.selections@);
}

} // verus!
