use svn_tui::svn::CommitError;
use svn_tui::svn::SvnClient;

fn cs(s: &str) -> Vec<char> {
    s.chars().collect()
}

fn ok(s: &str) -> Result<String, String> {
    Ok(String::from(s))
}

#[test]
fn new_client_is_empty() {
    let c = SvnClient::new(String::from("/work/copy"));
    assert_eq!(c.working_copy(), "/work/copy");
    assert_eq!(c.status.entries.len(), 0);
    assert_eq!(c.status.selections.len(), 0);
    assert_eq!(c.status.commit_message().len(), 0);
}

#[test]
fn init_populates_entries_without_selections() {
    let mut c = SvnClient::new(String::from("."));
    c.init_svn_status(ok("M b.txt\n? a.txt"));
    assert_eq!(c.status.entries.len(), 2);
    assert_eq!(c.status.entries[0].file, cs("a.txt"));
    assert_eq!(c.status.entries[1].file, cs("b.txt"));
    assert_eq!(c.status.selections.len(), 0);
    assert_eq!(c.status.commit_message().len(), 0);
}

#[test]
fn refresh_preserves_selection_by_path_not_index() {
    let mut c = SvnClient::new(String::from("."));
    c.init_svn_status(ok("M a.txt\nM b.txt\nM c.txt"));
    c.status.toggle_selection(0);
    // a.txt moves from index 0 to index 1; it must stay selected there.
    c.refresh_svn_status(ok("M 0.txt\nM a.txt\nM b.txt\nM c.txt"));
    assert_eq!(c.status.entries.len(), 4);
    assert!(!c.status.is_selected(0));
    assert!(c.status.is_selected(1));
    assert!(!c.status.is_selected(2));
    assert!(!c.status.is_selected(3));
}

#[test]
fn refresh_drops_selection_of_a_vanished_path() {
    let mut c = SvnClient::new(String::from("."));
    c.init_svn_status(ok("M a.txt\nM b.txt\nM c.txt"));
    c.status.toggle_selection(1);
    // b.txt is gone, d.txt is new: nothing may stay or become selected.
    c.refresh_svn_status(ok("M a.txt\nM c.txt\nM d.txt"));
    assert_eq!(c.status.entries.len(), 3);
    assert_eq!(c.status.selections.len(), 0);
}

#[test]
fn refresh_keeps_the_commit_message() {
    let mut c = SvnClient::new(String::from("."));
    c.init_svn_status(ok("M a.txt"));
    c.status.set_commit_message(cs("work in progress"));
    c.refresh_svn_status(ok("M a.txt\nM b.txt"));
    assert_eq!(c.status.commit_message(), &cs("work in progress"));
}

#[test]
fn refresh_twice_with_same_output_changes_nothing() {
    let mut c = SvnClient::new(String::from("."));
    c.init_svn_status(ok("M a.txt\nM b.txt\nM c.txt"));
    c.status.toggle_selection(0);
    c.status.toggle_selection(2);
    c.status.set_commit_message(cs("fix"));
    let raw = "M a.txt\nM b.txt\nM c.txt\nM d.txt";
    c.refresh_svn_status(ok(raw));
    let entries1: Vec<(Vec<char>, Vec<char>)> =
        c.status.entries.iter().map(|e| (e.file.clone(), e.state.clone())).collect();
    let selections1 = c.status.selections.clone();
    let message1 = c.status.commit_message().clone();
    c.refresh_svn_status(ok(raw));
    let entries2: Vec<(Vec<char>, Vec<char>)> =
        c.status.entries.iter().map(|e| (e.file.clone(), e.state.clone())).collect();
    assert_eq!(entries2, entries1);
    assert_eq!(&c.status.selections, &selections1);
    assert_eq!(c.status.commit_message(), &message1);
}

#[test]
fn commit_with_empty_message_fails_regardless_of_selections() {
    let mut c = SvnClient::new(String::from("."));
    c.init_svn_status(ok("M a.txt"));
    c.status.toggle_selection(0);
    assert_eq!(c.commit_command(), Err(CommitError::EmptyCommitMessage));
}

#[test]
fn commit_with_whitespace_only_message_fails() {
    let mut c = SvnClient::new(String::from("."));
    c.init_svn_status(ok("M a.txt"));
    c.status.toggle_selection(0);
    c.status.set_commit_message(cs(" \t \r\n "));
    assert_eq!(c.commit_command(), Err(CommitError::EmptyCommitMessage));
}

#[test]
fn commit_without_selections_fails() {
    let mut c = SvnClient::new(String::from("."));
    c.init_svn_status(ok("M a.txt"));
    c.status.set_commit_message(cs("fix"));
    assert_eq!(c.commit_command(), Err(CommitError::NoFilesSelected));
}

#[test]
fn commit_command_carries_message_and_selected_paths() {
    let mut c = SvnClient::new(String::from("."));
    c.init_svn_status(ok("M a.txt\n? b.txt"));
    c.status.toggle_selection(0);
    c.status.set_commit_message(cs("fix"));
    let args = c.commit_command().unwrap();
    assert_eq!(args.len(), 4);
    assert_eq!(args[0], cs("commit"));
    assert_eq!(args[1], cs("-m"));
    assert_eq!(args[2], cs("fix"));
    assert_eq!(args[3], cs("a.txt"));
}

#[test]
fn commit_then_refresh_reflects_the_new_status() {
    let mut c = SvnClient::new(String::from("."));
    c.init_svn_status(ok("M a.txt\n? b.txt"));
    c.status.toggle_selection(0);
    c.status.set_commit_message(cs("fix"));
    let args = c.commit_command().unwrap();
    assert_eq!(args[3], cs("a.txt"));
    // The command succeeded; a.txt is committed and leaves the status.
    let r = c.push_basic_commit(ok(""), ok("? b.txt"));
    assert_eq!(r, Ok(true));
    assert_eq!(c.status.entries.len(), 1);
    assert_eq!(c.status.entries[0].file, cs("b.txt"));
    assert_eq!(c.status.selections.len(), 0);
}

#[test]
fn failed_commit_surfaces_the_diagnostic_text() {
    let mut c = SvnClient::new(String::from("."));
    c.init_svn_status(ok("M a.txt"));
    let r = c.push_basic_commit(Err(String::from("svn: E200009")), ok("M a.txt"));
    assert_eq!(r, Err(CommitError::CommitFailed(String::from("svn: E200009"))));
    assert_eq!(c.status.entries.len(), 1);
}

#[test]
fn add_command_names_the_indexed_path() {
    let mut c = SvnClient::new(String::from("."));
    c.init_svn_status(ok("? a.txt\n? b.txt"));
    let args = c.add_to_svn(1);
    assert_eq!(args.len(), 2);
    assert_eq!(args[0], cs("add"));
    assert_eq!(args[1], cs("b.txt"));
}

#[test]
fn add_command_with_invalid_index_names_no_path() {
    let mut c = SvnClient::new(String::from("."));
    c.init_svn_status(ok("? a.txt"));
    let args = c.add_to_svn(7);
    assert_eq!(args.len(), 1);
    assert_eq!(args[0], cs("add"));
}

#[test]
fn revert_command_names_the_indexed_path() {
    let mut c = SvnClient::new(String::from("."));
    c.init_svn_status(ok("M a.txt\nM b.txt"));
    let args = c.revert_to_svn(0);
    assert_eq!(args.len(), 2);
    assert_eq!(args[0], cs("revert"));
    assert_eq!(args[1], cs("a.txt"));
}

#[test]
fn refresh_after_failed_query_leaves_an_empty_list() {
    let mut c = SvnClient::new(String::from("."));
    c.init_svn_status(ok("M a.txt"));
    c.status.toggle_selection(0);
    c.refresh_svn_status(Err(String::from("svn: E155036")));
    assert_eq!(c.status.entries.len(), 0);
    assert_eq!(c.status.selections.len(), 0);
}
