use vstd::prelude::*;

verus! {

/// A node of the note tree: an identifier, an optional display title, and
/// the ordered list of children. Child order is display order; identifiers
/// are expected to be unique across the whole tree.
pub struct TreeNode {
    pub id: i32,
    pub title: Option<String>,
    pub children: Vec<TreeNode>,
}

/// Number of nodes in a forest, every subtree included.
pub open spec fn count_forest(s: Seq<TreeNode>) -> nat
    decreases s,
{
    if s.len() == 0 {
        0
    } else {
        1 + count_forest(s[0].children@) + count_forest(s.subrange(1, s.len() as int))
    }
}

/// Number of nodes in the subtree rooted at `n`, the node itself included.
pub open spec fn count_node(n: TreeNode) -> nat {
    1 + count_forest(n.children@)
}

/// Whether some node of the forest, at any depth, carries `id`.
pub open spec fn forest_contains(s: Seq<TreeNode>, id: i32) -> bool
    decreases s,
{
    if s.len() == 0 {
        false
    } else {
        ||| s[0].id == id
        ||| forest_contains(s[0].children@, id)
        ||| forest_contains(s.subrange(1, s.len() as int), id)
    }
}

/// Whether the subtree rooted at `n`, the node itself included, carries `id`.
pub open spec fn node_contains(n: TreeNode, id: i32) -> bool {
    n.id == id || forest_contains(n.children@, id)
}

/// The displayed title of a node: its own title, or the fixed placeholder
/// when none is set.
pub open spec fn spec_title(title: Option<String>) -> Seq<char> {
    match title {
        Some(t) => t@,
        None => "Untitled"@,
    }
}

/// The displayed title of a node, with the placeholder substituted for a
/// missing title.
pub fn title_or_placeholder(title: &Option<String>) -> (r: String)
    ensures
        r@ == spec_title(*title),
{
    match title {
        Some(t) => t.clone(),
        None => "Untitled".to_string(),
    }
}

/// A forest has at least as many nodes as any one of its trees.
pub proof fn lemma_count_forest_member(s: Seq<TreeNode>, i: int)
    requires
        0 <= i < s.len(),
    ensures
        count_node(s[i]) <= count_forest(s),
    decreases s,
{
    if i == 0 {
    } else {
        let rest = s.subrange(1, s.len() as int);
        lemma_count_forest_member(rest, i - 1);
        assert(rest[i - 1] == s[i]);
    }
}

} // verus!
