use svn_tui::svn::SvnStatusEntry;
use svn_tui::svn::SvnStatusList;

fn cs(s: &str) -> Vec<char> {
    s.chars().collect()
}

fn entry(path: &str, state: &str) -> SvnStatusEntry {
    SvnStatusEntry::new(cs(path), cs(state))
}

fn abc_list() -> SvnStatusList {
    let entries = vec![entry("a.txt", "M"), entry("b.txt", "A"), entry("c.txt", "?")];
    SvnStatusList::new(entries, Vec::new())
}

#[test]
fn new_list_has_empty_message() {
    let l = abc_list();
    assert_eq!(l.commit_message().len(), 0);
    assert_eq!(l.entries.len(), 3);
    assert_eq!(l.selections.len(), 0);
}

#[test]
fn toggle_selection_selects_and_deselects() {
    let mut l = abc_list();
    l.toggle_selection(1);
    assert!(l.is_selected(1));
    assert!(!l.is_selected(0));
    assert!(!l.is_selected(2));
    l.toggle_selection(1);
    assert!(!l.is_selected(1));
    assert_eq!(l.selections.len(), 0);
}

#[test]
fn selections_stay_sorted_by_index() {
    let mut l = abc_list();
    l.toggle_selection(2);
    l.toggle_selection(0);
    l.toggle_selection(1);
    assert_eq!(l.selections, vec![0, 1, 2]);
}

#[test]
fn toggle_selection_by_file_removes_the_ordinal_selection() {
    let mut l = abc_list();
    l.toggle_selection(0);
    l.toggle_selection(1);
    l.toggle_selection(2);
    l.toggle_selection_by_file(1);
    assert_eq!(l.selections, vec![0, 2]);
}

#[test]
fn toggle_selection_by_file_out_of_range_is_a_no_op() {
    let mut l = abc_list();
    l.toggle_selection(0);
    l.toggle_selection_by_file(5);
    assert_eq!(l.selections, vec![0]);
}

#[test]
fn commit_message_push_pop_set_clear() {
    let mut l = abc_list();
    l.push_char_to_commit_message('h');
    l.push_char_to_commit_message('i');
    assert_eq!(l.commit_message(), &cs("hi"));
    l.pop_char_from_commit_message();
    assert_eq!(l.commit_message(), &cs("h"));
    l.pop_char_from_commit_message();
    l.pop_char_from_commit_message();
    assert_eq!(l.commit_message().len(), 0);
    l.set_commit_message(cs("release notes"));
    assert_eq!(l.commit_message(), &cs("release notes"));
    l.clear_commit_message();
    assert_eq!(l.commit_message().len(), 0);
}

#[test]
fn selected_entries_come_in_file_order() {
    let mut l = abc_list();
    l.toggle_selection(2);
    l.toggle_selection(0);
    let sel = l.selected_entries();
    assert_eq!(sel.len(), 2);
    assert_eq!(sel[0].file, cs("a.txt"));
    assert_eq!(sel[1].file, cs("c.txt"));
}
