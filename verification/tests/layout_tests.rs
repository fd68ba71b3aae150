use svn_tui::layout::centered_rect;
use svn_tui::layout::create_layout;
use svn_tui::layout::Rect;
use svn_tui::ui::style_for_status;
use svn_tui::ui::BlockRenderStatus;
use svn_tui::ui::ModalInfo;
use svn_tui::ui::ModalType;
use svn_tui::ui::ProjectInfo;
use svn_tui::ui::StatusColor;

fn cs(s: &str) -> Vec<char> {
    s.chars().collect()
}

#[test]
fn centered_rect_enforces_the_minimum_on_small_containers() {
    let container = Rect::new(0, 0, 30, 5);
    let r = centered_rect(10, 10, container);
    assert!(r.width >= 30);
    assert!(r.height >= 5);
    assert_eq!(r.width, 30);
    assert_eq!(r.height, 5);
    assert_eq!(r.x, 0);
    assert_eq!(r.y, 0);
}

#[test]
fn centered_rect_uses_the_minimum_on_a_large_container() {
    let container = Rect::new(0, 0, 100, 50);
    let r = centered_rect(10, 10, container);
    assert_eq!(r.width, 40);
    assert_eq!(r.height, 8);
    assert_eq!(r.x, 30);
    assert_eq!(r.y, 21);
}

#[test]
fn centered_rect_honors_a_larger_requested_percentage() {
    let container = Rect::new(0, 0, 100, 50);
    let r = centered_rect(60, 20, container);
    assert_eq!(r.width, 60);
    assert_eq!(r.height, 10);
    assert_eq!(r.x, 20);
    assert_eq!(r.y, 20);
}

#[test]
fn centered_rect_stays_inside_the_container() {
    let container = Rect::new(5, 7, 44, 11);
    let r = centered_rect(60, 20, container);
    assert!(r.x >= container.x);
    assert!(r.y >= container.y);
    assert!(r.x + r.width <= container.x + container.width);
    assert!(r.y + r.height <= container.y + container.height);
}

#[test]
fn create_layout_splits_header_middle_and_bottom_halves() {
    let v = create_layout(Rect::new(0, 0, 80, 24));
    assert_eq!(v.len(), 4);
    assert_eq!(v[0], Rect::new(0, 0, 80, 3));
    assert_eq!(v[1], Rect::new(0, 3, 80, 14));
    assert_eq!(v[2], Rect::new(0, 17, 40, 7));
    assert_eq!(v[3], Rect::new(40, 17, 40, 7));
}

#[test]
fn create_layout_on_a_tiny_frame_still_tiles_it() {
    let v = create_layout(Rect::new(0, 0, 9, 8));
    assert_eq!(v[0].height + v[1].height + v[2].height, 8);
    assert_eq!(v[2].width + v[3].width, 9);
}

#[test]
fn status_codes_map_to_their_colors() {
    assert_eq!(style_for_status(&cs("M")), StatusColor::Blue);
    assert_eq!(style_for_status(&cs("A")), StatusColor::Green);
    assert_eq!(style_for_status(&cs("D")), StatusColor::Red);
    assert_eq!(style_for_status(&cs("C")), StatusColor::LightRed);
    assert_eq!(style_for_status(&cs("?")), StatusColor::Yellow);
    assert_eq!(style_for_status(&cs("!")), StatusColor::LightRed);
    assert_eq!(style_for_status(&cs("I")), StatusColor::DarkGray);
    assert_eq!(style_for_status(&cs("R")), StatusColor::Cyan);
    assert_eq!(style_for_status(&cs("X")), StatusColor::Magenta);
    assert_eq!(style_for_status(&cs("~")), StatusColor::LightMagenta);
    assert_eq!(style_for_status(&cs("ZZ")), StatusColor::Plain);
}

#[test]
fn presentation_state_defaults() {
    let b = BlockRenderStatus::new();
    assert_eq!(b.idx_selected, 0);
    assert!(!b.error);
    let m = ModalInfo::new();
    assert_eq!(m.title, "Void");
    assert_eq!(m.message, "");
    assert_eq!(ModalType::default(), ModalType::Info);
    let p = ProjectInfo::new(String::from("/repo"));
    assert_eq!(p.path, "/repo");
}
