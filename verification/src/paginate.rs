use vstd::prelude::*;
use vstd::math::min;
use vstd::arithmetic::div_mod::lemma_fundamental_div_mod_converse;
use std::collections::HashMap;
use crate::tree::TreeNode;
use crate::tree::count_node;
use crate::tree::lemma_count_forest_member;
use crate::tree::title_or_placeholder;
use crate::state::SelectionContext;
use crate::state::SelectionModel;
use crate::state::DEFAULT_MAX_LEVELS_BELOW;
use crate::state::child_level;
use crate::state::resolve_state;
use crate::page::PageEntry;
use crate::page::EntryModel;
use crate::page::TreePage;
use crate::page::models;
use crate::page::entries_of_node;
use crate::page::entries_of_forest;
use crate::page::flat_entries;
use crate::page::ctx_of;
use crate::page::chain_at;
use crate::page::stack_model;
use crate::page::appears;
use crate::page::appears_upto;
use crate::page::first_idx;
use crate::page::wf_entries;
use crate::page::lemma_first_idx;
use crate::page::lemma_chain_at_wf;
use crate::page::lemma_entries_wf;
use crate::page::lemma_models_push;
use crate::page::lemma_entries_take_one_more;

verus! {

/// Appends the document-order entries of `node`'s subtree to `out`.
fn flatten_node(
    node: &TreeNode,
    depth: usize,
    level: i32,
    selection: &SelectionContext,
    max_levels_below: i32,
    out: &mut Vec<PageEntry>,
)
    requires
        depth as int <= old(out)@.len(),
    ensures
        models(final(out)@) == models(old(out)@) + entries_of_node(
            *node,
            depth as nat,
            level as int,
            selection@,
            max_levels_below as int,
        ),
    decreases count_node(*node),
{
    let ghost pre = out@;
    let (is_open, is_highlighted) = resolve_state(node.id, selection, level, max_levels_below);
    let entry = PageEntry {
        id: node.id,
        title: title_or_placeholder(&node.title),
        depth: depth,
        is_open: is_open,
        is_highlighted: is_highlighted,
        is_context: false,
    };
    proof {
        lemma_models_push(pre, entry);
    }
    out.push(entry);
    let len_after = out.len();
    proof {
        assert(len_after == pre.len() + 1);
        assert(depth < len_after);
    }
    let child_depth = depth + 1;
    let next_level = child_level(node.id, level, selection, max_levels_below);
    let ghost sel = selection@;
    let ghost clevel = next_level as int;
    let ghost base = models(pre).push(entry@);
    let mut i: usize = 0;
    while i < node.children.len()
        invariant
            0 <= i <= node.children@.len(),
            sel == selection@,
            clevel == next_level as int,
            child_depth as int <= base.len(),
            models(out@) == base + entries_of_forest(
                node.children@.subrange(0, i as int),
                child_depth as nat,
                clevel,
                sel,
                max_levels_below as int,
            ),
        decreases node.children@.len() - i,
    {
        proof {
            lemma_count_forest_member(node.children@, i as int);
            assert(models(out@).len() == out@.len());
            assert(models(out@).len() >= base.len());
            assert(child_depth as int <= out@.len());
        }
        flatten_node(&node.children[i], child_depth, next_level, selection, max_levels_below, out);
        proof {
            lemma_entries_take_one_more(
                node.children@,
                i as int,
                child_depth as nat,
                clevel,
                sel,
                max_levels_below as int,
            );
            assert(base + (entries_of_forest(
                node.children@.subrange(0, i as int),
                child_depth as nat,
                clevel,
                sel,
                max_levels_below as int,
            ) + entries_of_node(
                node.children@[i as int],
                child_depth as nat,
                clevel,
                sel,
                max_levels_below as int,
            )) =~= (base + entries_of_forest(
                node.children@.subrange(0, i as int),
                child_depth as nat,
                clevel,
                sel,
                max_levels_below as int,
            )) + entries_of_node(
                node.children@[i as int],
                child_depth as nat,
                clevel,
                sel,
                max_levels_below as int,
            ));
        }
        i = i + 1;
    }
    proof {
        assert(node.children@.subrange(0, node.children@.len() as int) =~= node.children@);
        assert(models(pre) + (seq![entry@] + entries_of_forest(
            node.children@,
            child_depth as nat,
            clevel,
            sel,
            max_levels_below as int,
        )) =~= base + entries_of_forest(
            node.children@,
            child_depth as nat,
            clevel,
            sel,
            max_levels_below as int,
        ));
    }
}

/// The document-order entries of the whole forest, as one flat list.
fn flatten_forest(
    roots: &Vec<TreeNode>,
    selection: &SelectionContext,
    max_levels_below: i32,
) -> (out: Vec<PageEntry>)
    ensures
        models(out@) == flat_entries(roots@, selection@, max_levels_below as int),
{
    let mut out: Vec<PageEntry> = Vec::new();
    let ghost sel = selection@;
    let mut i: usize = 0;
    while i < roots.len()
        invariant
            0 <= i <= roots@.len(),
            sel == selection@,
            models(out@) == entries_of_forest(
                roots@.subrange(0, i as int),
                0,
                -1,
                sel,
                max_levels_below as int,
            ),
        decreases roots@.len() - i,
    {
        flatten_node(&roots[i], 0, -1, selection, max_levels_below, &mut out);
        proof {
            lemma_entries_take_one_more(roots@, i as int, 0, -1, sel, max_levels_below as int);
        }
        i = i + 1;
    }
    proof {
        assert(roots@.subrange(0, roots@.len() as int) =~= roots@);
    }
    out
}

/// How the pages of a paginated walk relate to the flat entry sequence `F`
/// and the budget `b`: there are exactly ceiling(|F| / b) pages, and page
/// `k` (zero-based) holds the ancestor chain of its first entry, as context
/// entries, followed by the `k`-th budget-sized chunk of `F`; its item
/// count is that chunk's length.
pub open spec fn pages_cover(F: Seq<EntryModel>, b: nat, pages: Seq<TreePage>) -> bool {
    &&& pages.len() == (F.len() as int + b as int - 1) / (b as int)
    &&& forall|k: int|
        0 <= k < pages.len() ==> models((#[trigger] pages[k]).entries@) == chain_at(
            F,
            (k * b as int) as nat,
        ) + F.subrange(k * b as int, min(k * b as int + b as int, F.len() as int))
    &&& forall|k: int|
        0 <= k < pages.len() ==> (#[trigger] pages[k]).item_count as int == min(
            k * b as int + b as int,
            F.len() as int,
        ) - k * b as int
}

/// How the lookup index relates to the flat entry sequence: exactly the
/// identifiers that occur in the walk are mapped, each to the 1-based
/// number of the page holding its first (real) entry.
pub open spec fn index_maps_first(F: Seq<EntryModel>, b: nat, idx: Map<i32, usize>) -> bool {
    &&& forall|id: i32|
        #![trigger idx.contains_key(id)]
        #![trigger appears(F, id)]
        idx.contains_key(id) <==> appears(F, id)
    &&& forall|id: i32|
        #[trigger] idx.contains_key(id) ==> idx[id] as int == first_idx(F, id) as int / (
        b as int) + 1
}

/// What `paginate` returns: no pages and an empty index for a zero budget;
/// otherwise pages that cover the document-order walk of the forest and an
/// index of first occurrences, both against the default auto-open window.
pub open spec fn paginate_post(
    roots: Seq<TreeNode>,
    sel: SelectionModel,
    budget: nat,
    pages: Seq<TreePage>,
    idx: Map<i32, usize>,
) -> bool {
    if budget == 0 {
        pages.len() == 0 && idx == Map::<i32, usize>::empty()
    } else {
        let F = flat_entries(roots, sel, DEFAULT_MAX_LEVELS_BELOW as int);
        pages_cover(F, budget, pages) && index_maps_first(F, budget, idx)
    }
}

/// A fresh copy of one entry.
fn copy_entry(e: &PageEntry) -> (r: PageEntry)
    ensures
        r@ == e@,
{
    PageEntry {
        id: e.id,
        title: e.title.clone(),
        depth: e.depth,
        is_open: e.is_open,
        is_highlighted: e.is_highlighted,
        is_context: e.is_context,
    }
}

/// The context copy of one entry, as replayed at the top of a new page.
fn ctx_entry(e: &PageEntry) -> (r: PageEntry)
    ensures
        r@ == ctx_of(e@),
{
    PageEntry {
        id: e.id,
        title: e.title.clone(),
        depth: e.depth,
        is_open: true,
        is_highlighted: false,
        is_context: true,
    }
}

/// A fresh copy of a list of entries.
fn copy_entries(src: &Vec<PageEntry>) -> (r: Vec<PageEntry>)
    ensures
        models(r@) == models(src@),
{
    let mut r: Vec<PageEntry> = Vec::new();
    let mut j: usize = 0;
    while j < src.len()
        invariant
            0 <= j <= src@.len(),
            models(r@) == models(src@).subrange(0, j as int),
        decreases src@.len() - j,
    {
        let ghost pre = r@;
        let entry = copy_entry(&src[j]);
        proof {
            lemma_models_push(pre, entry);
        }
        r.push(entry);
        proof {
            assert(models(src@).subrange(0, j as int).push(models(src@)[j as int]) =~= models(
                src@,
            ).subrange(0, j as int + 1));
        }
        j = j + 1;
    }
    proof {
        assert(models(src@).subrange(0, src@.len() as int) =~= models(src@));
    }
    r
}

/// Splits a well-formed flat walk into budget-sized pages, replaying each
/// break position's ancestor chain as context entries, and records the
/// first page of every identifier.
fn chunk_entries(flat: &Vec<PageEntry>, budget: usize) -> (r: (Vec<TreePage>, HashMap<i32, usize>))
    requires
        budget >= 1,
        wf_entries(models(flat@), 0),
    ensures
        pages_cover(models(flat@), budget as nat, r.0@),
        index_maps_first(models(flat@), budget as nat, r.1@),
{
    let ghost f = models(flat@);
    let b = budget;
    let mut pages: Vec<TreePage> = Vec::new();
    let mut cur: Vec<PageEntry> = Vec::new();
    let mut count: usize = 0;
    let mut stack: Vec<PageEntry> = Vec::new();
    let mut index: HashMap<i32, usize> = HashMap::new();
    let mut i: usize = 0;
    proof {
        assert(pages@.len() == 0);
        assert(pages@.len() * (b as int) == 0) by (nonlinear_arith)
            requires
                pages@.len() == 0,
        ;
        assert(models(cur@) =~= chain_at(f, 0nat) + f.subrange(0, 0));
    }
    while i < flat.len()
        invariant
            f == models(flat@),
            b == budget,
            b >= 1,
            wf_entries(f, 0),
            f.len() == flat@.len(),
            0 <= i <= f.len(),
            i as int == pages@.len() * (b as int) + count,
            count <= b,
            models(stack@) == stack_model(f, i as nat),
            models(cur@) == chain_at(f, (pages@.len() * (b as int)) as nat) + f.subrange(
                pages@.len() * (b as int),
                i as int,
            ),
            forall|k: int|
                0 <= k < pages@.len() ==> models((#[trigger] pages@[k]).entries@) == chain_at(
                    f,
                    (k * b as int) as nat,
                ) + f.subrange(k * b as int, min(k * b as int + b as int, f.len() as int)),
            forall|k: int|
                0 <= k < pages@.len() ==> (#[trigger] pages@[k]).item_count as int == min(
                    k * b as int + b as int,
                    f.len() as int,
                ) - k * b as int,
            forall|id: i32|
                #![trigger index@.contains_key(id)]
                #![trigger appears_upto(f, id, i as int)]
                index@.contains_key(id) <==> appears_upto(f, id, i as int),
            forall|id: i32|
                #[trigger] index@.contains_key(id) ==> index@[id] as int == first_idx(f, id) as int
                    / (b as int) + 1,
        decreases f.len() - i,
    {
        let ghost pnum = pages@.len() as int;
        let e = &flat[i];
        proof {
            assert(e@ == f[i as int]);
            assert(models(stack@).len() == stack@.len());
            if i > 0 {
                lemma_chain_at_wf(f, (i - 1) as nat);
                assert(f[i as int].depth <= f[i as int - 1].depth + 1);
            }
            assert(e.depth as int <= stack@.len());
        }
        stack.truncate(e.depth);
        proof {
            assert(models(stack@) =~= stack_model(f, i as nat).take(f[i as int].depth as int));
            if i == 0 {
                assert(chain_at(f, 0) =~= stack_model(f, 0).take(f[0].depth as int));
            }
            assert(models(stack@) == chain_at(f, i as nat));
        }
        if count >= budget {
            // the running page is full: close it and replay the ancestors
            // of the entry about to be emitted as the next page's context
            proof {
                assert((pnum + 1) * (b as int) == pnum * (b as int) + b as int) by (nonlinear_arith);
                assert(i as int == pnum * (b as int) + b);
                assert(min(pnum * (b as int) + b as int, f.len() as int) == pnum * (b as int)
                    + b as int);
            }
            let finished = TreePage { entries: cur, item_count: count };
            pages.push(finished);
            cur = copy_entries(&stack);
            count = 0;
        }
        let entry = copy_entry(e);
        let ghost cur_pre = cur@;
        cur.push(entry);
        proof {
            lemma_models_push(cur_pre, entry);
            assert(f.subrange(pages@.len() * (b as int), i as int).push(f[i as int]) =~= f.subrange(
                pages@.len() * (b as int),
                i as int + 1,
            ));
        }
        let ghost index_pre = index@;
        let present = index.contains_key(&e.id);
        if !present {
            proof {
                lemma_first_idx(f, e.id);
                assert(appears(f, e.id));
                if first_idx(f, e.id) < i as nat {
                    assert(f[first_idx(f, e.id) as int].id == e.id);
                    assert(appears_upto(f, e.id, i as int));
                    assert(false);
                }
                assert(first_idx(f, e.id) == i as nat);
                assert(count < b);
                lemma_fundamental_div_mod_converse(
                    i as int,
                    b as int,
                    pages@.len() as int,
                    count as int,
                );
                assert(pages@.len() as int <= pages@.len() as int * (b as int))
                    by (nonlinear_arith)
                    requires
                        b >= 1,
                        pages@.len() >= 0,
                ;
                assert(pages@.len() < f.len());
            }
            index.insert(e.id, pages.len() + 1);
        }
        let ctx = ctx_entry(e);
        let ghost stack_pre = stack@;
        stack.push(ctx);
        proof {
            lemma_models_push(stack_pre, ctx);
            assert(models(stack@) == stack_model(f, (i + 1) as nat));
            assert forall|id: i32| index@.contains_key(id) <==> appears_upto(
                f,
                id,
                i as int + 1,
            ) by {
                if id == e.id {
                    assert(f[i as int].id == id);
                    assert(appears_upto(f, id, i as int + 1));
                    assert(index@.contains_key(id));
                } else {
                    assert(index@.contains_key(id) <==> index_pre.contains_key(id));
                    if appears_upto(f, id, i as int + 1) {
                        let j = choose|j: int| 0 <= j < i + 1 && j < f.len() && f[j].id == id;
                        assert(j != i);
                        assert(appears_upto(f, id, i as int));
                    }
                }
            }
        }
        count = count + 1;
        i = i + 1;
    }
    if count > 0 {
        proof {
            assert((pages@.len() as int + 1) * (b as int) == pages@.len() as int * (b as int)
                + b as int) by (nonlinear_arith);
            assert(min(pages@.len() as int * (b as int) + b as int, f.len() as int)
                == f.len() as int);
            lemma_fundamental_div_mod_converse(
                f.len() as int + b as int - 1,
                b as int,
                pages@.len() as int + 1,
                count as int - 1,
            );
        }
        let last = TreePage { entries: cur, item_count: count };
        pages.push(last);
    } else {
        proof {
            lemma_fundamental_div_mod_converse(
                f.len() as int + b as int - 1,
                b as int,
                pages@.len() as int,
                b as int - 1,
            );
        }
    }
    proof {
        assert forall|id: i32| index@.contains_key(id) <==> appears(f, id) by {
            assert(index@.contains_key(id) <==> appears_upto(f, id, f.len() as int));
        }
    }
    (pages, index)
}

/// Whether some real (non-context) entry of the page carries `id`.
pub open spec fn page_has_real(p: TreePage, id: i32) -> bool {
    exists|j: int|
        0 <= j < models(p.entries@).len() && (#[trigger] models(p.entries@)[j]).id == id
            && !models(p.entries@)[j].is_context
}

/// Whether the page holds a real entry for `id`.
fn page_contains_real(p: &TreePage, id: i32) -> (r: bool)
    ensures
        r == page_has_real(*p, id),
{
    let mut j: usize = 0;
    while j < p.entries.len()
        invariant
            0 <= j <= p.entries@.len(),
            forall|j2: int|
                0 <= j2 < j ==> !((#[trigger] models(p.entries@)[j2]).id == id && !models(
                    p.entries@,
                )[j2].is_context),
        decreases p.entries@.len() - j,
    {
        let e = &p.entries[j];
        proof {
            assert(models(p.entries@)[j as int] == p.entries@[j as int]@);
        }
        if !e.is_context && e.id == id {
            return true;
        }
        j = j + 1;
    }
    false
}

/// The 1-based number of the first page holding a real entry for the given
/// note. Defaults to 1 when no note is given or the note occurs on no
/// page.
pub fn find_page_for_note(pages: &Vec<TreePage>, note_id: Option<i32>) -> (r: i32)
    requires
        pages@.len() <= i32::MAX as int,
    ensures
        match note_id {
            None => r == 1,
            Some(id) => {
                if exists|k: int| 0 <= k < pages@.len() && page_has_real(#[trigger] pages@[k], id) {
                    &&& 1 <= r as int <= pages@.len()
                    &&& page_has_real(pages@[r as int - 1], id)
                    &&& forall|k: int|
                        0 <= k < r as int - 1 ==> !page_has_real(#[trigger] pages@[k], id)
                } else {
                    r == 1
                }
            },
        },
{
    match note_id {
        None => 1,
        Some(id) => {
            let mut k: usize = 0;
            while k < pages.len()
                invariant
                    note_id == Some(id),
                    0 <= k <= pages@.len(),
                    pages@.len() <= i32::MAX as int,
                    forall|k2: int| 0 <= k2 < k ==> !page_has_real(#[trigger] pages@[k2], id),
                decreases pages@.len() - k,
            {
                if page_contains_real(&pages[k], id) {
                    return (k + 1) as i32;
                }
                k = k + 1;
            }
            1
        },
    }
}

/// Walks the forest depth-first and partitions it into pages of at most
/// `budget` real entries, each page after the first opening with the
/// replayed ancestor chain of its first entry. Also returns the lookup
/// from node identifier to the 1-based number of the page holding the
/// node's first real entry. A zero budget yields no pages and an empty
/// lookup; this is a defined result, not an error.
pub fn paginate(roots: &Vec<TreeNode>, selection: &SelectionContext, budget: usize) -> (r: (
    Vec<TreePage>,
    HashMap<i32, usize>,
))
    ensures
        paginate_post(roots@, selection@, budget as nat, r.0@, r.1@),
{
    if budget == 0 {
        let pages: Vec<TreePage> = Vec::new();
        let index: HashMap<i32, usize> = HashMap::new();
        return (pages, index);
    }
    let flat = flatten_forest(roots, selection, DEFAULT_MAX_LEVELS_BELOW);
    proof {
        lemma_entries_wf(roots@, 0, -1, selection@, DEFAULT_MAX_LEVELS_BELOW as int);
    }
    chunk_entries(&flat, budget)
}

} // verus!
