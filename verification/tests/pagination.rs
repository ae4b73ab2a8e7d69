use tree_pager::paginate::find_page_for_note;
use tree_pager::paginate::paginate;
use tree_pager::state::SelectionContext;
use tree_pager::tree::TreeNode;

fn node(id: i32, title: Option<&str>, children: Vec<TreeNode>) -> TreeNode {
    TreeNode { id, title: title.map(|t| t.to_string()), children }
}

fn no_selection() -> SelectionContext {
    SelectionContext { current_note_id: None, breadcrumbs: Vec::new() }
}

/// The tree A(1) -> [B(2), C(3) -> [D(4)]].
fn sample_tree() -> Vec<TreeNode> {
    vec![node(
        1,
        Some("A"),
        vec![node(2, Some("B"), vec![]), node(3, Some("C"), vec![node(4, Some("D"), vec![])])],
    )]
}

#[test]
fn scenario_budget_two_with_selection() {
    let roots = sample_tree();
    let sel = SelectionContext { current_note_id: Some(4), breadcrumbs: vec![1, 3] };
    let (pages, page_of) = paginate(&roots, &sel, 2);

    assert_eq!(pages.len(), 2);

    // page 1: A and B, both real; the budget of two is reached.
    let p1 = &pages[0];
    assert_eq!(p1.item_count, 2);
    assert_eq!(p1.entries.len(), 2);
    assert_eq!(p1.entries[0].id, 1);
    assert!(!p1.entries[0].is_context);
    assert!(p1.entries[0].is_open); // on the breadcrumb chain
    assert!(!p1.entries[0].is_highlighted);
    assert_eq!(p1.entries[0].depth, 0);
    assert_eq!(p1.entries[1].id, 2);
    assert!(!p1.entries[1].is_context);
    assert!(!p1.entries[1].is_open);
    assert!(!p1.entries[1].is_highlighted);
    assert_eq!(p1.entries[1].depth, 1);

    // page 2: the ancestry of C is replayed as context (A alone: the break
    // comes before C is emitted), then C and D as real entries.
    let p2 = &pages[1];
    assert_eq!(p2.item_count, 2);
    assert_eq!(p2.entries.len(), 3);
    assert!(p2.entries[0].is_context);
    assert_eq!(p2.entries[0].id, 1);
    assert_eq!(p2.entries[0].depth, 0);
    assert!(p2.entries[0].is_open);
    assert!(!p2.entries[0].is_highlighted);
    assert!(!p2.entries[1].is_context);
    assert_eq!(p2.entries[1].id, 3);
    assert!(p2.entries[1].is_open); // on the breadcrumb chain
    assert!(!p2.entries[1].is_highlighted);
    assert_eq!(p2.entries[1].depth, 1);
    assert!(!p2.entries[2].is_context);
    assert_eq!(p2.entries[2].id, 4);
    assert!(p2.entries[2].is_open); // the current node
    assert!(p2.entries[2].is_highlighted);
    assert_eq!(p2.entries[2].depth, 2);

    // the lookup names the first page of every node's real entry.
    assert_eq!(page_of.get(&1), Some(&1usize));
    assert_eq!(page_of.get(&2), Some(&1usize));
    assert_eq!(page_of.get(&3), Some(&2usize));
    assert_eq!(page_of.get(&4), Some(&2usize));
    assert_eq!(page_of.len(), 4);
}

#[test]
fn empty_tree_gives_no_pages() {
    let roots: Vec<TreeNode> = Vec::new();
    let (pages, page_of) = paginate(&roots, &no_selection(), 7);
    assert!(pages.is_empty());
    assert!(page_of.is_empty());
}

#[test]
fn single_untitled_node() {
    let roots = vec![node(7, None, vec![])];
    let (pages, page_of) = paginate(&roots, &no_selection(), 10);
    assert_eq!(pages.len(), 1);
    assert_eq!(pages[0].item_count, 1);
    assert_eq!(pages[0].entries.len(), 1);
    let e = &pages[0].entries[0];
    assert_eq!(e.id, 7);
    assert_eq!(e.title, "Untitled");
    assert!(!e.is_open);
    assert!(!e.is_highlighted);
    assert!(!e.is_context);
    assert_eq!(page_of.get(&7), Some(&1usize));
}

#[test]
fn zero_budget_gives_empty_result() {
    let roots = sample_tree();
    let sel = SelectionContext { current_note_id: Some(4), breadcrumbs: vec![1, 3] };
    let (pages, page_of) = paginate(&roots, &sel, 0);
    assert!(pages.is_empty());
    assert!(page_of.is_empty());
}

#[test]
fn completeness_and_boundedness() {
    // 1 -> [2 -> [3, 4], 5 -> [6], 7]: seven nodes in document order
    // 1, 2, 3, 4, 5, 6, 7.
    let roots = vec![node(
        1,
        Some("one"),
        vec![
            node(2, Some("two"), vec![node(3, Some("three"), vec![]), node(4, Some("four"), vec![])]),
            node(5, Some("five"), vec![node(6, Some("six"), vec![])]),
            node(7, Some("seven"), vec![]),
        ],
    )];
    let (pages, page_of) = paginate(&roots, &no_selection(), 3);
    assert_eq!(pages.len(), 3);
    assert_eq!(pages[0].item_count, 3);
    assert_eq!(pages[1].item_count, 3);
    assert_eq!(pages[2].item_count, 1);
    let mut real_total = 0;
    for p in &pages {
        let real = p.entries.iter().filter(|e| !e.is_context).count();
        assert_eq!(real, p.item_count);
        assert!(real >= 1 && real <= 3);
        real_total += real;
    }
    assert_eq!(real_total, 7);
    let order: Vec<i32> = pages
        .iter()
        .flat_map(|p| p.entries.iter().filter(|e| !e.is_context).map(|e| e.id))
        .collect();
    assert_eq!(order, vec![1, 2, 3, 4, 5, 6, 7]);
    for id in 1..=7 {
        let page = *page_of.get(&id).unwrap();
        assert!(1 <= page && page <= pages.len());
    }
}

#[test]
fn context_replay_on_deep_chain() {
    // 10 -> 20 -> 30, budget 1: every page after the first replays the
    // full ancestor chain of its entry.
    let roots = vec![node(10, Some("a"), vec![node(20, Some("b"), vec![node(30, Some("c"), vec![])])])];
    let (pages, page_of) = paginate(&roots, &no_selection(), 1);
    assert_eq!(pages.len(), 3);

    assert_eq!(pages[0].entries.len(), 1);
    assert_eq!(pages[0].entries[0].id, 10);

    assert_eq!(pages[1].entries.len(), 2);
    assert!(pages[1].entries[0].is_context);
    assert_eq!(pages[1].entries[0].id, 10);
    assert_eq!(pages[1].entries[0].depth, 0);
    assert!(pages[1].entries[0].is_open);
    assert_eq!(pages[1].entries[1].id, 20);
    assert!(!pages[1].entries[1].is_context);

    assert_eq!(pages[2].entries.len(), 3);
    assert!(pages[2].entries[0].is_context);
    assert_eq!(pages[2].entries[0].id, 10);
    assert_eq!(pages[2].entries[0].depth, 0);
    assert!(pages[2].entries[1].is_context);
    assert_eq!(pages[2].entries[1].id, 20);
    assert_eq!(pages[2].entries[1].depth, 1);
    assert_eq!(pages[2].entries[2].id, 30);
    assert!(!pages[2].entries[2].is_context);
    assert_eq!(pages[2].entries[2].depth, 2);

    assert_eq!(page_of.get(&10), Some(&1usize));
    assert_eq!(page_of.get(&20), Some(&2usize));
    assert_eq!(page_of.get(&30), Some(&3usize));
}

#[test]
fn exact_division_fills_every_page() {
    // six nodes, budget three: exactly two full pages.
    let roots = vec![
        node(1, Some("a"), vec![node(2, Some("b"), vec![]), node(3, Some("c"), vec![])]),
        node(4, Some("d"), vec![node(5, Some("e"), vec![]), node(6, Some("f"), vec![])]),
    ];
    let (pages, _) = paginate(&roots, &no_selection(), 3);
    assert_eq!(pages.len(), 2);
    assert_eq!(pages[0].item_count, 3);
    assert_eq!(pages[1].item_count, 3);
    // the second page starts at a root: no context replay
    assert!(pages[1].entries.iter().all(|e| !e.is_context));
}

#[test]
fn wide_sibling_list_repeats_parent_context() {
    // one parent with five children, budget two: the children span three
    // pages, and the parent is replayed as context on each later page.
    let roots = vec![node(
        1,
        Some("parent"),
        (2..=6).map(|id| node(id, None, vec![])).collect(),
    )];
    let (pages, page_of) = paginate(&roots, &no_selection(), 2);
    assert_eq!(pages.len(), 3);
    // page 1: parent and first child
    let reals: Vec<i32> =
        pages[0].entries.iter().filter(|e| !e.is_context).map(|e| e.id).collect();
    assert_eq!(reals, vec![1, 2]);
    // pages 2 and 3: context for the parent, then two children each
    for (p, expect) in [(&pages[1], vec![3, 4]), (&pages[2], vec![5, 6])] {
        assert!(p.entries[0].is_context);
        assert_eq!(p.entries[0].id, 1);
        assert_eq!(p.entries[0].depth, 0);
        let reals: Vec<i32> = p.entries.iter().filter(|e| !e.is_context).map(|e| e.id).collect();
        assert_eq!(reals, expect);
    }
    assert_eq!(page_of.get(&1), Some(&1usize));
    assert_eq!(page_of.get(&4), Some(&2usize));
    assert_eq!(page_of.get(&6), Some(&3usize));
}

#[test]
fn root_level_break_has_no_context() {
    // two roots, budget 1: the second page starts a root, so nothing is
    // replayed.
    let roots = vec![node(1, Some("x"), vec![]), node(2, Some("y"), vec![])];
    let (pages, _) = paginate(&roots, &no_selection(), 1);
    assert_eq!(pages.len(), 2);
    assert_eq!(pages[1].entries.len(), 1);
    assert!(!pages[1].entries[0].is_context);
    assert_eq!(pages[1].entries[0].id, 2);
}

#[test]
fn auto_open_window_below_current() {
    // current node 1 with a chain of five below it: the first four levels
    // under the current node auto-open, the fifth stays closed.
    let roots = vec![node(
        1,
        Some("cur"),
        vec![node(2, None, vec![node(3, None, vec![node(4, None, vec![node(5, None, vec![node(6, None, vec![])])])])])],
    )];
    let sel = SelectionContext { current_note_id: Some(1), breadcrumbs: vec![] };
    let (pages, _) = paginate(&roots, &sel, 100);
    assert_eq!(pages.len(), 1);
    let entries = &pages[0].entries;
    assert_eq!(entries.len(), 6);
    assert!(entries[0].is_highlighted && entries[0].is_open); // the current node
    assert!(entries[1].is_open); // level 0 below
    assert!(entries[2].is_open); // level 1
    assert!(entries[3].is_open); // level 2
    assert!(entries[4].is_open); // level 3
    assert!(!entries[5].is_open); // level 4: outside the window
}

#[test]
fn find_page_locates_notes() {
    let roots = sample_tree();
    let sel = SelectionContext { current_note_id: Some(4), breadcrumbs: vec![1, 3] };
    let (pages, _) = paginate(&roots, &sel, 2);
    assert_eq!(find_page_for_note(&pages, Some(1)), 1);
    assert_eq!(find_page_for_note(&pages, Some(2)), 1);
    assert_eq!(find_page_for_note(&pages, Some(3)), 2);
    assert_eq!(find_page_for_note(&pages, Some(4)), 2);
    assert_eq!(find_page_for_note(&pages, Some(99)), 1);
    assert_eq!(find_page_for_note(&pages, None), 1);
}
