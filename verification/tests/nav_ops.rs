use dirnav::flatten::walk;
use dirnav::nav::{Action, App, NavEvent};
use dirnav::tree::{DirEntry, LinkStatus, ScanEntry};

fn dir_entry(name: &str) -> ScanEntry {
    ScanEntry {
        name: name.to_string(),
        is_dir: true,
        link_status: LinkStatus::Normal,
        link_target: None,
    }
}

fn file_entry(name: &str) -> ScanEntry {
    ScanEntry {
        name: name.to_string(),
        is_dir: false,
        link_status: LinkStatus::Normal,
        link_target: None,
    }
}

fn root_entry() -> DirEntry {
    DirEntry::new("/".to_string(), LinkStatus::Normal, None)
}

/// Root with the children alpha, beta, gamma, loaded and visible.
fn small_app(third: &str) -> App {
    let mut app = App::new(root_entry());
    app.load_focused(&vec![dir_entry("alpha"), dir_entry("beta"), dir_entry(third)]);
    app
}

#[test]
fn walk_renders_markers_indentation_and_links() {
    let mut root = root_entry();
    root.expanded = true;
    root.load_children(&vec![dir_entry("alpha")]);
    root.children[0].expanded = true;
    root.children[0].load_children(&vec![ScanEntry {
        name: "linked".to_string(),
        is_dir: true,
        link_status: LinkStatus::SymlinkOk,
        link_target: Some("/elsewhere".to_string()),
    }]);
    let mut rows = Vec::new();
    walk(&root, "", &mut rows, Vec::new());
    assert_eq!(rows.len(), 3);
    assert_eq!(rows[0].text, "\u{25bc} /");
    assert_eq!(rows[0].addr, Vec::<usize>::new());
    assert_eq!(rows[1].text, "    \u{25bc} alpha");
    assert_eq!(rows[1].addr, vec![0]);
    assert_eq!(rows[2].text, "        \u{25b6} linked -> /elsewhere");
    assert_eq!(rows[2].addr, vec![0, 0]);
    assert_eq!(rows[2].link_status, LinkStatus::SymlinkOk);
}

#[test]
fn collapsed_subtrees_contribute_no_rows() {
    let mut root = root_entry();
    root.expanded = true;
    root.load_children(&vec![dir_entry("a")]);
    root.children[0].load_children(&vec![dir_entry("hidden")]);
    // `a` is loaded but not expanded: its child must not appear.
    let mut rows = Vec::new();
    walk(&root, "", &mut rows, Vec::new());
    assert_eq!(rows.len(), 2);
    root.children[0].expanded = true;
    let mut rows2 = Vec::new();
    walk(&root, "", &mut rows2, Vec::new());
    assert_eq!(rows2.len(), 3);
}

#[test]
fn move_focus_clamps_at_both_ends() {
    let mut app = small_app("gamma");
    assert_eq!(app.focus(), Vec::<usize>::new());
    app.move_focus(-1, 30);
    assert_eq!(app.focus(), Vec::<usize>::new(), "no move above the first row");
    app.move_focus(2, 30);
    assert_eq!(app.focus(), vec![1]);
    app.move_focus(100, 30);
    assert_eq!(app.focus(), vec![2], "a long move stops at the last row");
    app.move_focus(1, 30);
    assert_eq!(app.focus(), vec![2]);
    app.move_focus(-100, 30);
    assert_eq!(app.focus(), Vec::<usize>::new());
}

#[test]
fn typeahead_selects_sibling_and_reset_reselects_it() {
    let mut app = small_app("gamma");
    app.move_focus(2, 30);
    assert_eq!(app.focus(), vec![1], "beta is focused");
    app.jump_to_char('g', 500);
    assert_eq!(app.focus(), vec![2], "typing g selects gamma");
    assert_eq!(app.search_buffer, vec!['g']);
    // After the timeout the buffer resets to "g" and gamma is selected again,
    // not a longer match.
    app.jump_to_char('g', 2000);
    assert_eq!(app.focus(), vec![2]);
    assert_eq!(app.search_buffer, vec!['g']);
    // Within the timeout the buffer grows instead, and a non-matching buffer
    // moves nothing.
    app.jump_to_char('g', 2500);
    assert_eq!(app.search_buffer, vec!['g', 'g']);
    assert_eq!(app.focus(), vec![2]);
}

#[test]
fn typeahead_is_case_insensitive() {
    let mut app = small_app("Gamma");
    app.move_focus(1, 30);
    assert_eq!(app.focus(), vec![0], "Gamma sorts before the lowercase names");
    app.jump_to_char('G', 100);
    assert_eq!(app.search_buffer, vec!['g'], "the buffer keeps lowercase characters");
    let mut app2 = small_app("Gamma");
    app2.move_focus(2, 30);
    app2.jump_to_char('g', 100);
    let rows = app2.rows();
    let focused = rows
        .iter()
        .find(|r| r.addr == app2.focus())
        .expect("focus is visible");
    assert_eq!(focused.name, "Gamma", "g matches the uppercase name");
}

#[test]
fn startup_priming_focuses_the_working_directory() {
    // Working directory /a/b under root /.
    let chain = dirnav::paths::ancestors_of("/a/b");
    assert_eq!(chain, vec!["/", "/a", "/a/b"]);
    let mut app = App::new(root_entry());
    assert_eq!(app.focused_path(), "/");
    let found = app.prime_step("/a", &vec![dir_entry("a"), dir_entry("etc"), dir_entry("home")]);
    assert!(found);
    assert_eq!(app.focused_path(), "/a");
    app.prime_last("/a/b", &vec![dir_entry("b"), dir_entry("c"), file_entry("notes")]);
    assert_eq!(app.focused_path(), "/a/b");
    app.load_focused(&vec![dir_entry("deep")]);

    assert_eq!(app.focus_path, vec![0, 0]);
    assert!(app.root.expanded, "/ is expanded");
    assert!(app.root.children[0].expanded, "/a is expanded");
    assert!(app.root.children[0].children[0].expanded, "/a/b is expanded");
    let siblings: Vec<String> =
        app.root.children[0].children.iter().map(|c| c.name.clone()).collect();
    assert_eq!(siblings, vec!["b", "c"], "the working directory's siblings are present");
    assert_eq!(app.scroll(), 0);
}

#[test]
fn select_emits_cd_command_and_quit_emits_nothing() {
    let mut app = App::new(root_entry());
    app.prime_step("/a", &vec![dir_entry("a")]);
    match app.handle_event(NavEvent::Select, 30, 0) {
        Action::Emit(s) => assert_eq!(s, "cd /a"),
        _ => panic!("selecting must emit a cd command"),
    }
    assert!(matches!(app.handle_event(NavEvent::Quit, 30, 0), Action::Quit));
}

#[test]
fn expand_requests_a_scan_only_when_not_loaded() {
    let mut app = small_app("gamma");
    app.move_focus(1, 30);
    assert!(matches!(app.handle_event(NavEvent::Expand, 30, 0), Action::ScanFocused));
    app.load_focused(&vec![dir_entry("inner")]);
    assert!(matches!(app.handle_event(NavEvent::Expand, 30, 0), Action::Nothing));
}

#[test]
fn collapse_collapses_or_ascends() {
    let mut app = small_app("gamma");
    app.move_focus(1, 30);
    app.handle_event(NavEvent::Expand, 30, 0);
    app.load_focused(&vec![dir_entry("inner")]);
    // First collapse: the focused node is expanded, so it collapses in place.
    app.handle_event(NavEvent::Collapse, 30, 0);
    assert_eq!(app.focus(), vec![0]);
    assert!(!app.root.children[0].expanded);
    // Second collapse: already collapsed, so the focus ascends to the parent.
    app.handle_event(NavEvent::Collapse, 30, 0);
    assert_eq!(app.focus(), Vec::<usize>::new());
    // Collapsing the collapsed root pops nothing and stays at the root.
    app.handle_event(NavEvent::Collapse, 30, 0);
    app.handle_event(NavEvent::Collapse, 30, 0);
    assert_eq!(app.focus(), Vec::<usize>::new());
}

#[test]
fn popup_captures_keys_until_dismissed() {
    let mut app = small_app("gamma");
    app.handle_event(NavEvent::TogglePopup, 30, 0);
    assert!(app.popup.visible);
    assert!(matches!(app.handle_event(NavEvent::Down, 30, 0), Action::PopupCount));
    app.popup_scroll_down(40, 30);
    assert_eq!(app.popup.offset, 1);
    app.handle_event(NavEvent::Up, 30, 0);
    assert_eq!(app.popup.offset, 0);
    app.handle_event(NavEvent::Up, 30, 0);
    assert_eq!(app.popup.offset, 0, "scrolling up stops at the top");
    // Navigation keys are captured: the focus must not move.
    assert_eq!(app.focus(), Vec::<usize>::new());
    app.handle_event(NavEvent::Char('q'), 30, 0);
    assert!(!app.popup.visible);
    assert_eq!(app.popup.offset, 0, "dismissing rewinds the scroll");
}

#[test]
fn popup_scroll_down_stops_at_the_listing_end() {
    let mut app = small_app("gamma");
    app.handle_event(NavEvent::TogglePopup, 30, 0);
    // Viewport is height / 2 - 2 = 13 rows; 5 entries fit entirely.
    app.popup_scroll_down(5, 30);
    assert_eq!(app.popup.offset, 0);
    app.popup_scroll_down(14, 30);
    assert_eq!(app.popup.offset, 1);
}

#[test]
fn popup_window_is_clamped_to_the_listing() {
    let mut p = dirnav::popup::Popup::new();
    p.offset = 9;
    assert_eq!(p.window(10, 3), (7, 10));
    p.offset = 0;
    assert_eq!(p.window(2, 5), (0, 2));
}

#[test]
fn nongraphic_characters_do_not_search() {
    let mut app = small_app("gamma");
    app.handle_event(NavEvent::Char(' '), 30, 0);
    assert!(app.search_buffer.is_empty());
    assert!(matches!(app.handle_event(NavEvent::Esc, 30, 0), Action::Nothing));
    assert_eq!(app.focus(), Vec::<usize>::new());
}

#[test]
fn scroll_follows_the_focus_through_a_small_viewport() {
    let mut app = App::new(root_entry());
    let scan: Vec<ScanEntry> = (0..9).map(|i| dir_entry(&format!("d{i}"))).collect();
    app.load_focused(&scan);
    // Viewport of 5 rows leaves height - 3 = 2 rows of headroom.
    for _ in 0..5 {
        app.move_focus(1, 5);
    }
    assert_eq!(app.focus(), vec![4]);
    assert_eq!(app.scroll(), 3, "the focus stays within the margin");
    for _ in 0..5 {
        app.move_focus(-1, 5);
    }
    assert_eq!(app.scroll(), 0);
}
