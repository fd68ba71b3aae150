use svn_tui::svn::SvnClient;

fn cs(s: &str) -> Vec<char> {
    s.chars().collect()
}

fn client() -> SvnClient {
    SvnClient::new(String::from("."))
}

#[test]
fn parses_state_and_path_from_a_line() {
    let c = client();
    let entries = c.svn_status(Ok(String::from("M   foo/bar.txt")));
    assert_eq!(entries.len(), 1);
    assert_eq!(entries[0].state, cs("M"));
    assert_eq!(entries[0].file, cs("foo/bar.txt"));
}

#[test]
fn line_without_separator_yields_no_entry() {
    let c = client();
    let entries = c.svn_status(Ok(String::from("nosep")));
    assert_eq!(entries.len(), 0);
}

#[test]
fn failed_status_query_yields_no_entries() {
    let c = client();
    let entries = c.svn_status(Err(String::from("svn: E155007")));
    assert_eq!(entries.len(), 0);
}

#[test]
fn entries_are_sorted_by_path() {
    let c = client();
    let entries = c.svn_status(Ok(String::from("M b.txt\nA c.txt\n? a.txt")));
    assert_eq!(entries.len(), 3);
    assert_eq!(entries[0].file, cs("a.txt"));
    assert_eq!(entries[0].state, cs("?"));
    assert_eq!(entries[1].file, cs("b.txt"));
    assert_eq!(entries[1].state, cs("M"));
    assert_eq!(entries[2].file, cs("c.txt"));
    assert_eq!(entries[2].state, cs("A"));
}

#[test]
fn unparseable_lines_are_dropped_silently() {
    let c = client();
    let entries = c.svn_status(Ok(String::from("M a.txt\n\njunk\nA b.txt")));
    assert_eq!(entries.len(), 2);
    assert_eq!(entries[0].file, cs("a.txt"));
    assert_eq!(entries[1].file, cs("b.txt"));
}

#[test]
fn path_is_trimmed_of_surrounding_whitespace() {
    let c = client();
    let entries = c.svn_status(Ok(String::from("M \t  spaced.txt  ")));
    assert_eq!(entries.len(), 1);
    assert_eq!(entries[0].file, cs("spaced.txt"));
}

#[test]
fn carriage_returns_are_trimmed_from_paths() {
    let c = client();
    let entries = c.svn_status(Ok(String::from("M a.txt\r\nA b.txt\r\n")));
    assert_eq!(entries.len(), 2);
    assert_eq!(entries[0].file, cs("a.txt"));
    assert_eq!(entries[1].file, cs("b.txt"));
}

#[test]
fn earliest_line_wins_a_duplicated_path() {
    let c = client();
    let entries = c.svn_status(Ok(String::from("M a.txt\nD a.txt")));
    assert_eq!(entries.len(), 1);
    assert_eq!(entries[0].state, cs("M"));
}

#[test]
fn empty_path_after_trimming_is_kept() {
    let c = client();
    let entries = c.svn_status(Ok(String::from("M   \nA b.txt")));
    assert_eq!(entries.len(), 2);
    assert_eq!(entries[0].file, cs(""));
    assert_eq!(entries[0].state, cs("M"));
    assert_eq!(entries[1].file, cs("b.txt"));
}
