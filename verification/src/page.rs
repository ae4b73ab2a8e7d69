use vstd::prelude::*;
use crate::tree::TreeNode;
use crate::tree::count_forest;
use crate::tree::forest_contains;
use crate::tree::spec_title;
use crate::state::SelectionModel;
use crate::state::spec_is_open;
use crate::state::spec_is_highlighted;
use crate::state::spec_child_level;

verus! {

/// One entry of a page document, handed to a renderer as typed data.
///
/// A real entry stands for a node of the tree, in document order. A context
/// entry replays an ancestor at the top of a page that begins mid-subtree;
/// it is marked, never counted against the page budget, and always open
/// (the continuation nests inside it), never highlighted.
pub struct PageEntry {
    pub id: i32,
    pub title: String,
    pub depth: usize,
    pub is_open: bool,
    pub is_highlighted: bool,
    pub is_context: bool,
}

/// The mathematical content of a `PageEntry`.
pub struct EntryModel {
    pub id: i32,
    pub title: Seq<char>,
    pub depth: nat,
    pub is_open: bool,
    pub is_highlighted: bool,
    pub is_context: bool,
}

impl View for PageEntry {
    type V = EntryModel;

    open spec fn view(&self) -> EntryModel {
        EntryModel {
            id: self.id,
            title: self.title@,
            depth: self.depth as nat,
            is_open: self.is_open,
            is_highlighted: self.is_highlighted,
            is_context: self.is_context,
        }
    }
}

/// The models of a sequence of entries.
pub open spec fn models(s: Seq<PageEntry>) -> Seq<EntryModel> {
    s.map_values(|e: PageEntry| e@)
}

/// One page of the paginated walk: its entries in order, and the number of
/// real (non-context) entries among them.
pub struct TreePage {
    pub entries: Vec<PageEntry>,
    pub item_count: usize,
}

/// Number of real (non-context) entries in a list of entries.
pub open spec fn count_real(s: Seq<EntryModel>) -> nat
    decreases s,
{
    if s.len() == 0 {
        0
    } else {
        (if s[0].is_context {
            0nat
        } else {
            1nat
        }) + count_real(s.subrange(1, s.len() as int))
    }
}

/// Real-entry counts add up over a split.
pub proof fn lemma_count_real_concat(a: Seq<EntryModel>, b: Seq<EntryModel>)
    ensures
        count_real(a + b) == count_real(a) + count_real(b),
    decreases a,
{
    if a.len() == 0 {
        assert(a + b =~= b);
    } else {
        let rest = a.subrange(1, a.len() as int);
        lemma_count_real_concat(rest, b);
        assert((a + b).subrange(1, (a + b).len() as int) =~= rest + b);
        assert((a + b)[0] == a[0]);
    }
}

/// A list of context entries counts no real entry.
pub proof fn lemma_count_real_all_context(s: Seq<EntryModel>)
    requires
        forall|j: int| 0 <= j < s.len() ==> (#[trigger] s[j]).is_context,
    ensures
        count_real(s) == 0,
    decreases s,
{
    if s.len() > 0 {
        lemma_count_real_all_context(s.subrange(1, s.len() as int));
    }
}

/// A list without context entries counts every entry.
pub proof fn lemma_count_real_no_context(s: Seq<EntryModel>)
    requires
        forall|j: int| 0 <= j < s.len() ==> !(#[trigger] s[j]).is_context,
    ensures
        count_real(s) == s.len(),
    decreases s,
{
    if s.len() > 0 {
        lemma_count_real_no_context(s.subrange(1, s.len() as int));
    }
}

/// The sum of the declared real-entry counts of a list of pages.
pub open spec fn sum_items(pages: Seq<TreePage>) -> int
    decreases pages,
{
    if pages.len() == 0 {
        0
    } else {
        pages[0].item_count + sum_items(pages.subrange(1, pages.len() as int))
    }
}

/// Appending a page adds its count to the sum.
pub proof fn lemma_sum_items_push(s: Seq<TreePage>, p: TreePage)
    ensures
        sum_items(s.push(p)) == sum_items(s) + p.item_count,
    decreases s,
{
    if s.len() == 0 {
        assert(s.push(p).subrange(1, 1) =~= Seq::<TreePage>::empty());
        assert(s.push(p)[0] == p);
        assert(sum_items(s.push(p)) == p.item_count + sum_items(Seq::<TreePage>::empty()));
    } else {
        let rest = s.subrange(1, s.len() as int);
        lemma_sum_items_push(rest, p);
        assert(s.push(p).subrange(1, s.len() as int + 1) =~= rest.push(p));
        assert(s.push(p)[0] == s[0]);
    }
}

/// The real entry a node contributes to the walk, at a given nesting depth
/// and levels-below-current counter.
pub open spec fn entry_of(
    n: TreeNode,
    depth: nat,
    level: int,
    sel: SelectionModel,
    max_levels_below: int,
) -> EntryModel {
    EntryModel {
        id: n.id,
        title: spec_title(n.title),
        depth: depth,
        is_open: spec_is_open(n.id, sel, level, max_levels_below),
        is_highlighted: spec_is_highlighted(n.id, sel),
        is_context: false,
    }
}

/// The document-order entries of one subtree: the node's own entry, then
/// the entries of its children at the next depth.
pub open spec fn entries_of_node(
    n: TreeNode,
    depth: nat,
    level: int,
    sel: SelectionModel,
    max_levels_below: int,
) -> Seq<EntryModel> {
    seq![entry_of(n, depth, level, sel, max_levels_below)] + entries_of_forest(
        n.children@,
        depth + 1,
        spec_child_level(n.id, level, sel, max_levels_below),
        sel,
        max_levels_below,
    )
}

/// The flat, document-order sequence of real entries of a forest: each node
/// before its children, children in display order, then the later siblings.
pub open spec fn entries_of_forest(
    s: Seq<TreeNode>,
    depth: nat,
    level: int,
    sel: SelectionModel,
    max_levels_below: int,
) -> Seq<EntryModel>
    decreases s,
{
    if s.len() == 0 {
        Seq::empty()
    } else {
        seq![entry_of(s[0], depth, level, sel, max_levels_below)]
            + entries_of_forest(
            s[0].children@,
            depth + 1,
            spec_child_level(s[0].id, level, sel, max_levels_below),
            sel,
            max_levels_below,
        ) + entries_of_forest(s.subrange(1, s.len() as int), depth, level, sel, max_levels_below)
    }
}

/// The document-order entries of a whole tree walk: roots at depth zero,
/// with the levels-below-current counter negative until the current node is
/// entered.
pub open spec fn flat_entries(
    roots: Seq<TreeNode>,
    sel: SelectionModel,
    max_levels_below: int,
) -> Seq<EntryModel> {
    entries_of_forest(roots, 0, -1, sel, max_levels_below)
}

/// Well-formedness of a document-order entry sequence starting at `base`
/// depth: depths never sink below `base`, the first entry sits at `base`,
/// a step descends by at most one level, and no entry is a context entry.
pub open spec fn wf_entries(F: Seq<EntryModel>, base: nat) -> bool {
    &&& forall|i: int| 0 <= i < F.len() ==> (#[trigger] F[i]).depth >= base
    &&& (F.len() > 0 ==> F[0].depth == base)
    &&& forall|i: int| 1 <= i < F.len() ==> (#[trigger] F[i]).depth <= F[i - 1].depth + 1
    &&& forall|i: int| 0 <= i < F.len() ==> !(#[trigger] F[i]).is_context
}

/// The context copy of an entry: marked contextual, always open (the
/// continuation nests inside it), never highlighted.
pub open spec fn ctx_of(e: EntryModel) -> EntryModel {
    EntryModel {
        id: e.id,
        title: e.title,
        depth: e.depth,
        is_open: true,
        is_highlighted: false,
        is_context: true,
    }
}

/// The ancestor chain, as context entries, of the entry at position `i` of
/// a well-formed document-order sequence: the previous entry's chain with
/// the previous entry appended, cut down to the depth of entry `i`. In a
/// pre-order walk these are exactly the entries of the ancestors of entry
/// `i`, outermost first.
pub open spec fn chain_at(F: Seq<EntryModel>, i: nat) -> Seq<EntryModel>
    decreases i,
{
    if i == 0 {
        Seq::empty()
    } else {
        chain_at(F, (i - 1) as nat).push(ctx_of(F[i - 1])).take(F[i as int].depth as int)
    }
}

/// The walk's full ancestry record just after emitting entry `i - 1`: the
/// chain of entry `i - 1`, with entry `i - 1` itself on top.
pub open spec fn stack_model(F: Seq<EntryModel>, i: nat) -> Seq<EntryModel> {
    if i == 0 {
        Seq::empty()
    } else {
        chain_at(F, (i - 1) as nat).push(ctx_of(F[i - 1]))
    }
}

/// In a well-formed sequence, the chain of entry `i` is one context entry
/// per ancestor level: its length is the entry's depth, its entries are
/// contextual, and the entry at position `j` sits at depth `j`.
pub proof fn lemma_chain_at_wf(F: Seq<EntryModel>, i: nat)
    requires
        wf_entries(F, 0),
        i < F.len(),
    ensures
        chain_at(F, i).len() == F[i as int].depth,
        forall|j: int| 0 <= j < chain_at(F, i).len()
            ==> (#[trigger] chain_at(F, i)[j]).is_context
                && chain_at(F, i)[j].depth == j
                && chain_at(F, i)[j].is_open
                && !chain_at(F, i)[j].is_highlighted,
    decreases i,
{
    if i > 0 {
        lemma_chain_at_wf(F, (i - 1) as nat);
    }
}

/// Whether some entry carries `id`.
pub open spec fn appears(F: Seq<EntryModel>, id: i32) -> bool {
    exists|j: int| 0 <= j < F.len() && F[j].id == id
}

/// Whether some entry among the first `m` carries `id`.
pub open spec fn appears_upto(F: Seq<EntryModel>, id: i32, m: int) -> bool {
    exists|j: int| 0 <= j < m && j < F.len() && F[j].id == id
}

/// No identifier repeats among the entries.
pub open spec fn no_duplicate_ids(F: Seq<EntryModel>) -> bool {
    forall|i: int, j: int| 0 <= i < j < F.len() ==> (#[trigger] F[i]).id != (#[trigger] F[j]).id
}

/// The position of the first entry carrying `id`; the sequence's length
/// when there is none.
pub open spec fn first_idx(F: Seq<EntryModel>, id: i32) -> nat
    decreases F,
{
    if F.len() == 0 {
        0
    } else if F[0].id == id {
        0
    } else {
        1 + first_idx(F.subrange(1, F.len() as int), id)
    }
}

/// What the first-occurrence position means: it carries `id`, nothing
/// before it does, and it lies past the end exactly when `id` never occurs.
pub proof fn lemma_first_idx(F: Seq<EntryModel>, id: i32)
    ensures
        appears(F, id) ==> first_idx(F, id) < F.len() && F[first_idx(F, id) as int].id == id,
        forall|j: int| 0 <= j < first_idx(F, id) && j < F.len() ==> (#[trigger] F[j]).id != id,
        !appears(F, id) ==> first_idx(F, id) == F.len(),
    decreases F,
{
    if F.len() == 0 {
    } else if F[0].id == id {
    } else {
        let rest = F.subrange(1, F.len() as int);
        lemma_first_idx(rest, id);
        assert forall|j: int| 0 <= j < first_idx(F, id) && j < F.len() implies (#[trigger] F[j]).id
            != id by {
            if j > 0 {
                assert(F[j] == rest[j - 1]);
            }
        }
        if appears(F, id) {
            let w = choose|j: int| 0 <= j < F.len() && F[j].id == id;
            assert(rest[w - 1] == F[w]);
            assert(appears(rest, id));
            assert(F[first_idx(F, id) as int] == rest[first_idx(rest, id) as int]);
        } else {
            if appears(rest, id) {
                let w = choose|j: int| 0 <= j < rest.len() && rest[j].id == id;
                assert(F[w + 1] == rest[w]);
            }
        }
    }
}

/// Mapping entries to their models commutes with appending one entry.
pub proof fn lemma_models_push(s: Seq<PageEntry>, e: PageEntry)
    ensures
        models(s.push(e)) == models(s).push(e@),
{
    assert(models(s.push(e)) =~= models(s).push(e@));
}

/// A one-tree forest walks exactly that tree.
pub proof fn lemma_entries_singleton(
    n: TreeNode,
    depth: nat,
    level: int,
    sel: SelectionModel,
    max_levels_below: int,
)
    ensures
        entries_of_forest(seq![n], depth, level, sel, max_levels_below)
            == entries_of_node(n, depth, level, sel, max_levels_below),
{
    let s = seq![n];
    assert(s.subrange(1, 1) =~= Seq::<TreeNode>::empty());
    assert(entries_of_forest(Seq::<TreeNode>::empty(), depth, level, sel, max_levels_below)
        == Seq::<EntryModel>::empty());
    assert(entries_of_forest(s.subrange(1, 1), depth, level, sel, max_levels_below)
        == Seq::<EntryModel>::empty());
    assert(s[0] == n);
    assert(entries_of_forest(s, depth, level, sel, max_levels_below)
        =~= entries_of_node(n, depth, level, sel, max_levels_below));
}

/// Walking one more tree of a forest appends exactly that tree's entries.
pub proof fn lemma_entries_take_one_more(
    s: Seq<TreeNode>,
    i: int,
    depth: nat,
    level: int,
    sel: SelectionModel,
    max_levels_below: int,
)
    requires
        0 <= i < s.len(),
    ensures
        entries_of_forest(s.subrange(0, i + 1), depth, level, sel, max_levels_below)
            == entries_of_forest(s.subrange(0, i), depth, level, sel, max_levels_below)
            + entries_of_node(s[i], depth, level, sel, max_levels_below),
{
    assert(s.subrange(0, i + 1) =~= s.subrange(0, i) + seq![s[i]]);
    lemma_entries_concat(s.subrange(0, i), seq![s[i]], depth, level, sel, max_levels_below);
    lemma_entries_singleton(s[i], depth, level, sel, max_levels_below);
}

/// Document-order entries distribute over a split of a forest.
pub proof fn lemma_entries_concat(
    a: Seq<TreeNode>,
    b: Seq<TreeNode>,
    depth: nat,
    level: int,
    sel: SelectionModel,
    max_levels_below: int,
)
    ensures
        entries_of_forest(a + b, depth, level, sel, max_levels_below)
            == entries_of_forest(a, depth, level, sel, max_levels_below)
            + entries_of_forest(b, depth, level, sel, max_levels_below),
    decreases a,
{
    if a.len() == 0 {
        assert(a + b =~= b);
        assert(entries_of_forest(a, depth, level, sel, max_levels_below)
            + entries_of_forest(b, depth, level, sel, max_levels_below)
            =~= entries_of_forest(b, depth, level, sel, max_levels_below));
    } else {
        let rest = a.subrange(1, a.len() as int);
        lemma_entries_concat(rest, b, depth, level, sel, max_levels_below);
        assert((a + b).subrange(1, (a + b).len() as int) =~= rest + b);
        assert((a + b)[0] == a[0]);
        let e = seq![entry_of(a[0], depth, level, sel, max_levels_below)];
        let c = entries_of_forest(
            a[0].children@,
            depth + 1,
            spec_child_level(a[0].id, level, sel, max_levels_below),
            sel,
            max_levels_below,
        );
        let r = entries_of_forest(rest, depth, level, sel, max_levels_below);
        let bb = entries_of_forest(b, depth, level, sel, max_levels_below);
        assert(e + c + (r + bb) =~= (e + c + r) + bb);
    }
}

/// A walk emits exactly one real entry per node.
pub proof fn lemma_entries_len(
    s: Seq<TreeNode>,
    depth: nat,
    level: int,
    sel: SelectionModel,
    max_levels_below: int,
)
    ensures
        entries_of_forest(s, depth, level, sel, max_levels_below).len() == count_forest(s),
    decreases s,
{
    if s.len() > 0 {
        lemma_entries_len(
            s[0].children@,
            depth + 1,
            spec_child_level(s[0].id, level, sel, max_levels_below),
            sel,
            max_levels_below,
        );
        lemma_entries_len(s.subrange(1, s.len() as int), depth, level, sel, max_levels_below);
    }
}

/// The walk's entry sequence is well formed: document order never skips
/// levels downward, never leaves the forest's base depth, and contains real
/// entries only.
pub proof fn lemma_entries_wf(
    s: Seq<TreeNode>,
    depth: nat,
    level: int,
    sel: SelectionModel,
    max_levels_below: int,
)
    ensures
        wf_entries(entries_of_forest(s, depth, level, sel, max_levels_below), depth),
    decreases s,
{
    if s.len() > 0 {
        let clevel = spec_child_level(s[0].id, level, sel, max_levels_below);
        lemma_entries_wf(s[0].children@, depth + 1, clevel, sel, max_levels_below);
        lemma_entries_wf(s.subrange(1, s.len() as int), depth, level, sel, max_levels_below);
        let e = seq![entry_of(s[0], depth, level, sel, max_levels_below)];
        let c = entries_of_forest(s[0].children@, depth + 1, clevel, sel, max_levels_below);
        let r = entries_of_forest(s.subrange(1, s.len() as int), depth, level, sel, max_levels_below);
        let f = entries_of_forest(s, depth, level, sel, max_levels_below);
        assert(f == e + c + r);
        assert forall|i: int| 0 <= i < f.len() implies (#[trigger] f[i]).depth >= depth by {
            if i < 1 {
            } else if i < 1 + c.len() {
                assert(f[i] == c[i - 1]);
            } else {
                assert(f[i] == r[i - 1 - c.len()]);
            }
        }
        assert forall|i: int| 1 <= i < f.len() implies (#[trigger] f[i]).depth <= f[i - 1].depth
            + 1 by {
            if i < 1 + c.len() {
                assert(f[i] == c[i - 1]);
                if i > 1 {
                    assert(f[i - 1] == c[i - 2]);
                }
            } else {
                assert(f[i] == r[i - 1 - c.len()]);
                if i > 1 + c.len() {
                    assert(f[i - 1] == r[i - 2 - c.len()]);
                } else if c.len() > 0 {
                    assert(f[i - 1] == c[c.len() - 1]);
                }
            }
        }
        assert forall|i: int| 0 <= i < f.len() implies !(#[trigger] f[i]).is_context by {
            if i < 1 {
            } else if i < 1 + c.len() {
                assert(f[i] == c[i - 1]);
            } else {
                assert(f[i] == r[i - 1 - c.len()]);
            }
        }
    }
}

/// Occurrence of an identifier distributes over a split of a walk.
proof fn lemma_appears_concat(a: Seq<EntryModel>, b: Seq<EntryModel>, id: i32)
    ensures
        appears(a + b, id) <==> (appears(a, id) || appears(b, id)),
{
    if appears(a + b, id) {
        let j = choose|j: int| 0 <= j < (a + b).len() && (a + b)[j].id == id;
        if j < a.len() {
            assert(a[j] == (a + b)[j]);
        } else {
            assert(b[j - a.len()] == (a + b)[j]);
        }
    }
    if appears(a, id) {
        let j = choose|j: int| 0 <= j < a.len() && a[j].id == id;
        assert((a + b)[j] == a[j]);
    }
    if appears(b, id) {
        let j = choose|j: int| 0 <= j < b.len() && b[j].id == id;
        assert((a + b)[j + a.len()] == b[j]);
    }
}

/// An identifier occurs among a forest's walk entries exactly when some
/// node of the forest carries it.
pub proof fn lemma_appears_is_contains(
    s: Seq<TreeNode>,
    depth: nat,
    level: int,
    sel: SelectionModel,
    max_levels_below: int,
    id: i32,
)
    ensures
        appears(entries_of_forest(s, depth, level, sel, max_levels_below), id)
            <==> forest_contains(s, id),
    decreases s,
{
    if s.len() > 0 {
        let clevel = spec_child_level(s[0].id, level, sel, max_levels_below);
        lemma_appears_is_contains(s[0].children@, depth + 1, clevel, sel, max_levels_below, id);
        lemma_appears_is_contains(
            s.subrange(1, s.len() as int),
            depth,
            level,
            sel,
            max_levels_below,
            id,
        );
        let e = seq![entry_of(s[0], depth, level, sel, max_levels_below)];
        let c = entries_of_forest(s[0].children@, depth + 1, clevel, sel, max_levels_below);
        let r = entries_of_forest(
            s.subrange(1, s.len() as int),
            depth,
            level,
            sel,
            max_levels_below,
        );
        lemma_appears_concat(e + c, r, id);
        lemma_appears_concat(e, c, id);
        assert(appears(e, id) <==> s[0].id == id) by {
            if appears(e, id) {
            } else if s[0].id == id {
                assert(e[0].id == id);
            }
        }
    }
}

/// Every real entry carries the resolver's decisions: it highlights exactly
/// when it is the current node, and a breadcrumb node is always open.
pub proof fn lemma_entries_flags(
    s: Seq<TreeNode>,
    depth: nat,
    level: int,
    sel: SelectionModel,
    max_levels_below: int,
)
    ensures
        forall|i: int|
            0 <= i < entries_of_forest(s, depth, level, sel, max_levels_below).len() ==> {
                let e = #[trigger] entries_of_forest(s, depth, level, sel, max_levels_below)[i];
                &&& (e.is_highlighted <==> sel.current_note_id == Some(e.id))
                &&& (sel.breadcrumbs.contains(e.id) ==> e.is_open)
            },
    decreases s,
{
    if s.len() > 0 {
        let clevel = spec_child_level(s[0].id, level, sel, max_levels_below);
        lemma_entries_flags(s[0].children@, depth + 1, clevel, sel, max_levels_below);
        lemma_entries_flags(s.subrange(1, s.len() as int), depth, level, sel, max_levels_below);
        let e = seq![entry_of(s[0], depth, level, sel, max_levels_below)];
        let c = entries_of_forest(s[0].children@, depth + 1, clevel, sel, max_levels_below);
        let r = entries_of_forest(s.subrange(1, s.len() as int), depth, level, sel, max_levels_below);
        let f = entries_of_forest(s, depth, level, sel, max_levels_below);
        assert(f == e + c + r);
        assert forall|i: int| 0 <= i < f.len() implies {
            let x = #[trigger] f[i];
            &&& (x.is_highlighted <==> sel.current_note_id == Some(x.id))
            &&& (sel.breadcrumbs.contains(x.id) ==> x.is_open)
        } by {
            if i < 1 {
            } else if i < 1 + c.len() {
                assert(f[i] == c[i - 1]);
            } else {
                assert(f[i] == r[i - 1 - c.len()]);
            }
        }
    }
}

} // verus!
