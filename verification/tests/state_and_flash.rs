use tree_pager::flash::FlashMessage;
use tree_pager::state::child_level;
use tree_pager::state::get_breadcrumbs;
use tree_pager::state::is_parent_of_current;
use tree_pager::state::resolve_state;
use tree_pager::state::set_breadcrumbs;
use tree_pager::state::should_be_open;
use tree_pager::state::SelectionContext;
use tree_pager::tree::title_or_placeholder;
use tree_pager::tree::TreeNode;

fn node(id: i32, children: Vec<TreeNode>) -> TreeNode {
    TreeNode { id, title: None, children }
}

#[test]
fn breadcrumb_nodes_resolve_open() {
    let sel = SelectionContext { current_note_id: Some(9), breadcrumbs: vec![1, 5] };
    let (open, highlighted) = resolve_state(5, &sel, -1, 4);
    assert!(open);
    assert!(!highlighted);
    let (open, highlighted) = resolve_state(1, &sel, -1, 4);
    assert!(open);
    assert!(!highlighted);
}

#[test]
fn only_the_current_node_highlights() {
    let sel = SelectionContext { current_note_id: Some(9), breadcrumbs: vec![] };
    let (open, highlighted) = resolve_state(9, &sel, -1, 4);
    assert!(open);
    assert!(highlighted);
    let (open, highlighted) = resolve_state(8, &sel, -1, 4);
    assert!(!open);
    assert!(!highlighted);
}

#[test]
fn no_selection_highlights_nothing() {
    let sel = SelectionContext { current_note_id: None, breadcrumbs: vec![] };
    let (open, highlighted) = resolve_state(3, &sel, -1, 4);
    assert!(!open);
    assert!(!highlighted);
}

#[test]
fn auto_open_window_bounds() {
    let sel = SelectionContext { current_note_id: None, breadcrumbs: vec![] };
    assert!(resolve_state(3, &sel, 0, 4).0);
    assert!(resolve_state(3, &sel, 3, 4).0);
    assert!(!resolve_state(3, &sel, 4, 4).0);
    assert!(!resolve_state(3, &sel, -1, 4).0);
}

#[test]
fn child_level_counts_below_current() {
    let sel = SelectionContext { current_note_id: Some(2), breadcrumbs: vec![] };
    // under the current node the counter restarts at zero
    assert_eq!(child_level(2, -1, &sel, 4), 0);
    // inside the window it grows by one per level
    assert_eq!(child_level(7, 0, &sel, 4), 1);
    assert_eq!(child_level(7, 3, &sel, 4), 4);
    // past the window it saturates: no open decision changes
    assert_eq!(child_level(7, 4, &sel, 4), 4);
    // outside the current node's subtree it stays negative
    assert_eq!(child_level(7, -1, &sel, 4), -1);
}

#[test]
fn parent_of_current_scans_descendants() {
    let tree = node(1, vec![node(2, vec![]), node(3, vec![node(4, vec![])])]);
    assert!(is_parent_of_current(&tree, 4));
    assert!(is_parent_of_current(&tree, 2));
    // a node is not its own parent
    assert!(!is_parent_of_current(&tree, 1));
    assert!(!is_parent_of_current(&tree, 99));
}

#[test]
fn should_be_open_combines_the_rules() {
    let tree = node(1, vec![node(2, vec![]), node(3, vec![node(4, vec![])])]);
    let crumbs: Vec<i32> = vec![8];
    // an ancestor of the current node opens
    assert!(should_be_open(1, 4, &tree, &crumbs));
    // the current node itself opens
    assert!(should_be_open(4, 4, &tree.children[1].children[0], &crumbs));
    // a breadcrumb opens even without the scan
    let leaf = node(8, vec![]);
    assert!(should_be_open(8, 4, &leaf, &crumbs));
    // otherwise closed
    let other = node(9, vec![]);
    assert!(!should_be_open(9, 4, &other, &crumbs));
}

#[test]
fn breadcrumbs_are_replaced_in_place() {
    let mut sel = SelectionContext { current_note_id: Some(3), breadcrumbs: vec![1] };
    set_breadcrumbs(&mut sel, vec![1, 2]);
    assert_eq!(get_breadcrumbs(&sel), &vec![1, 2]);
    assert_eq!(sel.current_note_id, Some(3));
}

#[test]
fn flash_message_kinds() {
    let m = FlashMessage::success("saved".to_string());
    assert_eq!(m.kind, "success");
    assert_eq!(m.message, "saved");
    let m = FlashMessage::error("failed".to_string());
    assert_eq!(m.kind, "error");
    assert_eq!(m.message, "failed");
    let m = FlashMessage::info("note moved".to_string());
    assert_eq!(m.kind, "info");
    assert_eq!(m.message, "note moved");
    let m = FlashMessage::warning("tag exists".to_string());
    assert_eq!(m.kind, "warning");
    assert_eq!(m.message, "tag exists");
}

#[test]
fn titles_fall_back_to_placeholder() {
    assert_eq!(title_or_placeholder(&Some("My note".to_string())), "My note");
    assert_eq!(title_or_placeholder(&None), "Untitled");
}
