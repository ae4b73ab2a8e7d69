use vstd::prelude::*;
use crate::tree::TreeNode;
use crate::tree::forest_contains;
use crate::tree::count_node;
use crate::tree::lemma_count_forest_member;

verus! {

/// How many tree levels below the current node are auto-expanded when no
/// other rule opens a node.
pub const DEFAULT_MAX_LEVELS_BELOW: i32 = 4;

/// The selection a walk is rendered against: the identifier of the current
/// node, if any, and the ordered ancestor chain (breadcrumbs) of the current
/// node, from the root down to its parent.
pub struct SelectionContext {
    pub current_note_id: Option<i32>,
    pub breadcrumbs: Vec<i32>,
}

/// The mathematical content of a `SelectionContext`.
pub struct SelectionModel {
    pub current_note_id: Option<i32>,
    pub breadcrumbs: Seq<i32>,
}

impl View for SelectionContext {
    type V = SelectionModel;

    open spec fn view(&self) -> SelectionModel {
        SelectionModel {
            current_note_id: self.current_note_id,
            breadcrumbs: self.breadcrumbs@,
        }
    }
}

/// A node renders highlighted exactly when it is the current node.
pub open spec fn spec_is_highlighted(node_id: i32, sel: SelectionModel) -> bool {
    sel.current_note_id == Some(node_id)
}

/// A node renders open when it lies on the breadcrumb chain, is the current
/// node itself, or sits within the auto-open window below the current node.
pub open spec fn spec_is_open(
    node_id: i32,
    sel: SelectionModel,
    levels_below_current: int,
    max_levels_below: int,
) -> bool {
    ||| sel.breadcrumbs.contains(node_id)
    ||| spec_is_highlighted(node_id, sel)
    ||| 0 <= levels_below_current < max_levels_below
}

/// The levels-below-current counter handed to the children of `parent_id`:
/// it restarts at zero under the current node, grows while inside the
/// current node's subtree, and stays negative outside it. Past the auto-open
/// window the counter saturates; the open rule reads it only through the
/// window `[0, max_levels_below)`, so saturation changes no decision.
pub open spec fn spec_child_level(
    parent_id: i32,
    level: int,
    sel: SelectionModel,
    max_levels_below: int,
) -> int {
    if sel.current_note_id == Some(parent_id) {
        0
    } else if 0 <= level < max_levels_below {
        level + 1
    } else if level >= max_levels_below {
        level
    } else {
        -1
    }
}

/// The levels-below-current counter for the children of `parent_id`.
pub fn child_level(
    parent_id: i32,
    level: i32,
    selection: &SelectionContext,
    max_levels_below: i32,
) -> (r: i32)
    ensures
        r as int == spec_child_level(parent_id, level as int, selection@, max_levels_below as int),
{
    let is_current = match selection.current_note_id {
        Some(c) => c == parent_id,
        None => false,
    };
    if is_current {
        0
    } else if 0 <= level && level < max_levels_below {
        level + 1
    } else if level >= max_levels_below {
        level
    } else {
        -1
    }
}

/// Replaces the breadcrumb chain of a selection, leaving the current node
/// untouched.
pub fn set_breadcrumbs(selection: &mut SelectionContext, breadcrumbs: Vec<i32>)
    ensures
        final(selection).breadcrumbs@ == breadcrumbs@,
        final(selection).current_note_id == old(selection).current_note_id,
{
    selection.breadcrumbs = breadcrumbs;
}

/// The breadcrumb chain of a selection.
pub fn get_breadcrumbs(selection: &SelectionContext) -> (r: &Vec<i32>)
    ensures
        r@ == selection.breadcrumbs@,
{
    &selection.breadcrumbs
}

/// Whether `id` occurs in `v`.
fn contains_id(v: &Vec<i32>, id: i32) -> (r: bool)
    ensures
        r == v@.contains(id),
{
    let mut i: usize = 0;
    while i < v.len()
        invariant
            0 <= i <= v.len(),
            forall|j: int| 0 <= j < i ==> v@[j] != id,
        decreases v.len() - i,
    {
        if v[i] == id {
            return true;
        }
        i = i + 1;
    }
    false
}

/// Decides, for one node, whether it renders expanded and whether it
/// renders highlighted. Pure: a function of the selection, the node's
/// identifier, and the walk's levels-below-current counter alone.
pub fn resolve_state(
    node_id: i32,
    selection: &SelectionContext,
    levels_below_current: i32,
    max_levels_below: i32,
) -> (r: (bool, bool))
    ensures
        r.0 == spec_is_open(node_id, selection@, levels_below_current as int, max_levels_below as int),
        r.1 == spec_is_highlighted(node_id, selection@),
{
    let is_highlighted = match selection.current_note_id {
        Some(c) => c == node_id,
        None => false,
    };
    let is_open = contains_id(&selection.breadcrumbs, node_id) || is_highlighted
        || (0 <= levels_below_current && levels_below_current < max_levels_below);
    (is_open, is_highlighted)
}

/// Whether the current node lies strictly below `node` in the tree.
pub fn is_parent_of_current(node: &TreeNode, current_note_id: i32) -> (r: bool)
    ensures
        r == forest_contains(node.children@, current_note_id),
    decreases count_node(*node),
{
    let mut i: usize = 0;
    while i < node.children.len()
        invariant
            0 <= i <= node.children@.len(),
            !forest_contains(node.children@.subrange(0, i as int), current_note_id),
        decreases node.children@.len() - i,
    {
        let child = &node.children[i];
        proof {
            lemma_count_forest_member(node.children@, i as int);
        }
        if child.id == current_note_id || is_parent_of_current(child, current_note_id) {
            proof {
                lemma_forest_contains_member(node.children@, i as int, current_note_id);
            }
            return true;
        }
        proof {
            lemma_forest_prefix_extend(node.children@, i as int, current_note_id);
        }
        i = i + 1;
    }
    proof {
        assert(node.children@.subrange(0, node.children@.len() as int) =~= node.children@);
    }
    false
}

/// A forest contains whatever any one of its trees carries.
proof fn lemma_forest_contains_member(s: Seq<TreeNode>, i: int, id: i32)
    requires
        0 <= i < s.len(),
        s[i].id == id || forest_contains(s[i].children@, id),
    ensures
        forest_contains(s, id),
    decreases s,
{
    if i > 0 {
        let rest = s.subrange(1, s.len() as int);
        lemma_forest_contains_member(rest, i - 1, id);
        assert(rest[i - 1] == s[i]);
    }
}

/// Growing the scanned prefix of a forest by one tree adds exactly that
/// tree's containment.
proof fn lemma_forest_prefix_extend(s: Seq<TreeNode>, i: int, id: i32)
    requires
        0 <= i < s.len(),
    ensures
        forest_contains(s.subrange(0, i + 1), id) <==> (forest_contains(s.subrange(0, i), id)
            || s[i].id == id || forest_contains(s[i].children@, id)),
    decreases i,
{
    if i == 0 {
        let one = s.subrange(0, 1);
        assert(one[0] == s[0]);
        assert(one.subrange(1, 1) =~= Seq::<TreeNode>::empty());
        assert(s.subrange(0, 0) =~= Seq::<TreeNode>::empty());
    } else {
        let a = s.subrange(0, i + 1);
        let rest = s.subrange(1, s.len() as int);
        lemma_forest_prefix_extend(rest, i - 1, id);
        assert(a[0] == s[0]);
        assert(a.subrange(1, a.len() as int) =~= rest.subrange(0, i));
        assert(rest.subrange(0, i - 1) =~= s.subrange(0, i).subrange(1, i));
        assert(s.subrange(0, i)[0] == s[0]);
        assert(rest[i - 1] == s[i]);
    }
}

/// Whether `node` should render expanded: it lies on the breadcrumb chain,
/// is the current node itself, or is an ancestor of the current node.
pub fn should_be_open(
    node_id: i32,
    current_note_id: i32,
    node: &TreeNode,
    breadcrumbs: &Vec<i32>,
) -> (r: bool)
    ensures
        r == (breadcrumbs@.contains(node_id) || current_note_id == node_id
            || forest_contains(node.children@, current_note_id)),
{
    contains_id(breadcrumbs, node_id) || current_note_id == node_id
        || is_parent_of_current(node, current_note_id)
}

/// Ancestor-open invariant: a node on the breadcrumb chain of the current
/// node always resolves as open, whatever the walk's counter says.
pub proof fn lemma_breadcrumb_is_open(
    node_id: i32,
    sel: SelectionModel,
    levels_below_current: int,
    max_levels_below: int,
)
    requires
        sel.breadcrumbs.contains(node_id),
    ensures
        spec_is_open(node_id, sel, levels_below_current, max_levels_below),
{
}

/// Highlight exclusivity: only the current node highlights, so two
/// highlighted nodes carry the same identifier.
pub proof fn lemma_highlight_exclusive(a: i32, b: i32, sel: SelectionModel)
    requires
        spec_is_highlighted(a, sel),
        spec_is_highlighted(b, sel),
    ensures
        a == b,
{
}

} // verus!
