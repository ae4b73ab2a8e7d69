use vstd::prelude::*;
use vstd::math::min;
use vstd::arithmetic::div_mod::lemma_fundamental_div_mod;
use vstd::arithmetic::div_mod::lemma_fundamental_div_mod_converse;
use vstd::arithmetic::div_mod::lemma_mod_pos_bound;
use vstd::arithmetic::mul::lemma_mul_inequality;
use crate::tree::TreeNode;
use crate::tree::count_forest;
use crate::tree::forest_contains;
use crate::state::SelectionModel;
use crate::state::DEFAULT_MAX_LEVELS_BELOW;
use crate::page::EntryModel;
use crate::page::TreePage;
use crate::page::models;
use crate::page::flat_entries;
use crate::page::chain_at;
use crate::page::appears;
use crate::page::first_idx;
use crate::page::no_duplicate_ids;
use crate::page::count_real;
use crate::page::sum_items;
use crate::page::wf_entries;
use crate::page::lemma_chain_at_wf;
use crate::page::lemma_entries_len;
use crate::page::lemma_entries_wf;
use crate::page::lemma_entries_flags;
use crate::page::lemma_first_idx;
use crate::page::lemma_count_real_concat;
use crate::page::lemma_count_real_all_context;
use crate::page::lemma_count_real_no_context;
use crate::page::lemma_sum_items_push;
use crate::page::lemma_appears_is_contains;
use crate::paginate::pages_cover;
use crate::paginate::paginate_post;
use crate::paginate::page_has_real;

verus! {

/// Every page of a covering starts strictly inside the walk.
proof fn lemma_page_start_bound(F: Seq<EntryModel>, b: nat, pages: Seq<TreePage>, k: int)
    requires
        b >= 1,
        pages_cover(F, b, pages),
        0 <= k < pages.len(),
    ensures
        k * (b as int) < F.len() as int,
        k * (b as int) >= 0,
    decreases 0int,
{
    let n = F.len() as int;
    let bi = b as int;
    let q = pages.len() as int;
    lemma_fundamental_div_mod(n + bi - 1, bi);
    lemma_mod_pos_bound(n + bi - 1, bi);
    lemma_mul_inequality(k, q - 1, bi);
    assert((q - 1) * bi == q * bi - bi) by (nonlinear_arith);
    assert(q * bi == bi * q) by (nonlinear_arith);
    assert(k * bi >= 0) by (nonlinear_arith)
        requires
            k >= 0,
            bi >= 1,
    ;
}

/// The pages of a covering together reach the end of the walk.
proof fn lemma_cover_total(F: Seq<EntryModel>, b: nat, pages: Seq<TreePage>)
    requires
        b >= 1,
        pages_cover(F, b, pages),
    ensures
        pages.len() as int * (b as int) >= F.len() as int,
{
    let n = F.len() as int;
    let bi = b as int;
    let q = pages.len() as int;
    lemma_fundamental_div_mod(n + bi - 1, bi);
    lemma_mod_pos_bound(n + bi - 1, bi);
    assert(q * bi == bi * q) by (nonlinear_arith);
}

/// Summing the first `m` pages of a covering reaches `m` budgets into the
/// walk, or its end.
proof fn lemma_sum_chunks(F: Seq<EntryModel>, b: nat, pages: Seq<TreePage>, m: int)
    requires
        b >= 1,
        pages_cover(F, b, pages),
        0 <= m <= pages.len(),
    ensures
        sum_items(pages.take(m)) == min(m * (b as int), F.len() as int),
    decreases m,
{
    let n = F.len() as int;
    let bi = b as int;
    if m == 0 {
        assert(pages.take(0) =~= Seq::<TreePage>::empty());
    } else {
        lemma_sum_chunks(F, b, pages, m - 1);
        assert(pages.take(m) =~= pages.take(m - 1).push(pages[m - 1]));
        lemma_sum_items_push(pages.take(m - 1), pages[m - 1]);
        lemma_page_start_bound(F, b, pages, m - 1);
        assert((m - 1) * bi + bi == m * bi) by (nonlinear_arith);
        assert(min((m - 1) * bi, n) == (m - 1) * bi);
    }
}

/// Completeness: with a positive budget, the real entries across all pages
/// are one per node of the forest — context entries never counted, no node
/// lost, none duplicated.
pub proof fn lemma_completeness(
    roots: Seq<TreeNode>,
    sel: SelectionModel,
    budget: nat,
    pages: Seq<TreePage>,
    idx: Map<i32, usize>,
)
    requires
        budget >= 1,
        paginate_post(roots, sel, budget, pages, idx),
    ensures
        forall|k: int|
            0 <= k < pages.len() ==> count_real(models((#[trigger] pages[k]).entries@))
                == pages[k].item_count,
        sum_items(pages) == count_forest(roots),
{
    let F = flat_entries(roots, sel, DEFAULT_MAX_LEVELS_BELOW as int);
    lemma_entries_len(roots, 0, -1, sel, DEFAULT_MAX_LEVELS_BELOW as int);
    lemma_entries_wf(roots, 0, -1, sel, DEFAULT_MAX_LEVELS_BELOW as int);
    let n = F.len() as int;
    let bi = budget as int;
    assert forall|k: int| 0 <= k < pages.len() implies count_real(
        models((#[trigger] pages[k]).entries@),
    ) == pages[k].item_count by {
        lemma_page_start_bound(F, budget, pages, k);
        lemma_chain_at_wf(F, (k * bi) as nat);
        let chain = chain_at(F, (k * bi) as nat);
        let chunk = F.subrange(k * bi, min(k * bi + bi, n));
        lemma_count_real_concat(chain, chunk);
        lemma_count_real_all_context(chain);
        assert forall|j: int| 0 <= j < chunk.len() implies !(#[trigger] chunk[j]).is_context by {
            assert(chunk[j] == F[k * bi + j]);
        }
        lemma_count_real_no_context(chunk);
    }
    lemma_sum_chunks(F, budget, pages, pages.len() as int);
    assert(pages.take(pages.len() as int) =~= pages);
    lemma_cover_total(F, budget, pages);
}

/// Boundedness: every page holds at least one and at most the budget in
/// real entries; context entries never count against the budget.
pub proof fn lemma_boundedness(
    roots: Seq<TreeNode>,
    sel: SelectionModel,
    budget: nat,
    pages: Seq<TreePage>,
    idx: Map<i32, usize>,
)
    requires
        budget >= 1,
        paginate_post(roots, sel, budget, pages, idx),
    ensures
        forall|k: int|
            0 <= k < pages.len() ==> 1 <= (#[trigger] pages[k]).item_count <= budget,
{
    let F = flat_entries(roots, sel, DEFAULT_MAX_LEVELS_BELOW as int);
    assert forall|k: int| 0 <= k < pages.len() implies 1 <= (#[trigger] pages[k]).item_count
        <= budget by {
        lemma_page_start_bound(F, budget, pages, k);
    }
}

/// Contiguity: pages are numbered by their position, 1 through the number
/// of pages, and the lookup maps every identifier into exactly that range.
pub proof fn lemma_contiguity(
    roots: Seq<TreeNode>,
    sel: SelectionModel,
    budget: nat,
    pages: Seq<TreePage>,
    idx: Map<i32, usize>,
)
    requires
        budget >= 1,
        paginate_post(roots, sel, budget, pages, idx),
    ensures
        forall|id: i32|
            #[trigger] idx.contains_key(id) ==> 1 <= idx[id] as int <= pages.len() as int,
{
    let F = flat_entries(roots, sel, DEFAULT_MAX_LEVELS_BELOW as int);
    let n = F.len() as int;
    let bi = budget as int;
    lemma_cover_total(F, budget, pages);
    assert forall|id: i32| #[trigger] idx.contains_key(id) implies 1 <= idx[id] as int
        <= pages.len() as int by {
        assert(appears(F, id));
        lemma_first_idx(F, id);
        let fi = first_idx(F, id) as int;
        lemma_fundamental_div_mod(fi, bi);
        lemma_mod_pos_bound(fi, bi);
        let q = fi / bi;
        assert(q >= 0) by (nonlinear_arith)
            requires
                fi >= 0,
                bi >= 1,
                fi == bi * q + fi % bi,
                0 <= fi % bi < bi,
        ;
        if q >= pages.len() as int {
            lemma_mul_inequality(pages.len() as int, q, bi);
            assert(q * bi == bi * q) by (nonlinear_arith);
            assert(false);
        }
    }
}

/// A page holds a real entry for `id` exactly when its chunk of the walk
/// does.
proof fn lemma_page_real_iff(
    F: Seq<EntryModel>,
    b: nat,
    pages: Seq<TreePage>,
    k: int,
    id: i32,
)
    requires
        b >= 1,
        wf_entries(F, 0),
        pages_cover(F, b, pages),
        0 <= k < pages.len(),
    ensures
        page_has_real(pages[k], id) <==> exists|p: int|
            k * (b as int) <= p < min(k * (b as int) + b as int, F.len() as int)
                && (#[trigger] F[p]).id == id,
{
    let n = F.len() as int;
    let bi = b as int;
    lemma_page_start_bound(F, b, pages, k);
    lemma_chain_at_wf(F, (k * bi) as nat);
    let chain_k = chain_at(F, (k * bi) as nat);
    let chunk_k = F.subrange(k * bi, min(k * bi + bi, n));
    if page_has_real(pages[k], id) {
        let j = choose|j: int|
            0 <= j < models(pages[k].entries@).len() && (#[trigger] models(
                pages[k].entries@,
            )[j]).id == id && !models(pages[k].entries@)[j].is_context;
        if j < chain_k.len() {
            assert(models(pages[k].entries@)[j] == chain_k[j]);
            assert(false);
        } else {
            let p = k * bi + (j - chain_k.len());
            assert(models(pages[k].entries@)[j] == chunk_k[j - chain_k.len()]);
            assert(chunk_k[j - chain_k.len()] == F[p]);
            assert(F[p].id == id);
        }
    }
    if exists|p: int| k * bi <= p < min(k * bi + bi, n) && (#[trigger] F[p]).id == id {
        let p = choose|p: int| k * bi <= p < min(k * bi + bi, n) && (#[trigger] F[p]).id == id;
        let j = chain_k.len() as int + (p - k * bi);
        assert(models(pages[k].entries@)[j] == chunk_k[p - k * bi]);
        assert(chunk_k[p - k * bi] == F[p]);
        assert(!F[p].is_context);
        assert(page_has_real(pages[k], id));
    }
}

/// Idempotent lookup: for every identifier in the walk, the lookup names
/// exactly the first page that holds one of its real entries.
pub proof fn lemma_lookup_first_page(
    roots: Seq<TreeNode>,
    sel: SelectionModel,
    budget: nat,
    pages: Seq<TreePage>,
    idx: Map<i32, usize>,
    id: i32,
)
    requires
        budget >= 1,
        paginate_post(roots, sel, budget, pages, idx),
        idx.contains_key(id),
    ensures
        1 <= idx[id] as int <= pages.len() as int,
        page_has_real(pages[idx[id] as int - 1], id),
        forall|k: int| 0 <= k < idx[id] as int - 1 ==> !page_has_real(#[trigger] pages[k], id),
{
    lemma_contiguity(roots, sel, budget, pages, idx);
    let F = flat_entries(roots, sel, DEFAULT_MAX_LEVELS_BELOW as int);
    lemma_entries_wf(roots, 0, -1, sel, DEFAULT_MAX_LEVELS_BELOW as int);
    let n = F.len() as int;
    let bi = budget as int;
    assert(appears(F, id));
    lemma_first_idx(F, id);
    let fi = first_idx(F, id) as int;
    lemma_fundamental_div_mod(fi, bi);
    lemma_mod_pos_bound(fi, bi);
    let kk = idx[id] as int - 1;
    assert(kk == fi / bi);
    assert(kk * bi == bi * kk) by (nonlinear_arith);
    assert(kk * bi <= fi < kk * bi + bi);
    lemma_page_real_iff(F, budget, pages, kk, id);
    assert(kk * bi <= fi < min(kk * bi + bi, n) && F[fi].id == id);
    assert(page_has_real(pages[kk], id));
    assert forall|k: int| 0 <= k < kk implies !page_has_real(#[trigger] pages[k], id) by {
        lemma_page_real_iff(F, budget, pages, k, id);
        lemma_mul_inequality(k + 1, kk, bi);
        assert((k + 1) * bi == k * bi + bi) by (nonlinear_arith);
        if page_has_real(pages[k], id) {
            let p = choose|p: int|
                k * bi <= p < min(k * bi + bi, n) && (#[trigger] F[p]).id == id;
            assert(p < fi);
            assert(F[p].id != id);
            assert(false);
        }
    }
}

/// With unique identifiers, an entry is its own identifier's first
/// occurrence.
proof fn lemma_first_idx_unique(F: Seq<EntryModel>, p: int)
    requires
        no_duplicate_ids(F),
        0 <= p < F.len(),
    ensures
        first_idx(F, F[p].id) as int == p,
{
    let id = F[p].id;
    assert(appears(F, id));
    lemma_first_idx(F, id);
    let fi = first_idx(F, id) as int;
    assert(fi <= p);
    if fi < p {
        assert(F[fi].id == F[p].id);
        assert(false);
    }
}

/// Contiguity, no-gaps half: with unique identifiers, every page number
/// from 1 to the number of pages is handed out to some identifier — the
/// identifier of the page's first real entry.
pub proof fn lemma_page_numbers_complete(
    roots: Seq<TreeNode>,
    sel: SelectionModel,
    budget: nat,
    pages: Seq<TreePage>,
    idx: Map<i32, usize>,
    k: int,
)
    requires
        budget >= 1,
        paginate_post(roots, sel, budget, pages, idx),
        no_duplicate_ids(flat_entries(roots, sel, DEFAULT_MAX_LEVELS_BELOW as int)),
        1 <= k <= pages.len(),
    ensures
        exists|id: i32| #[trigger] idx.contains_key(id) && idx[id] as int == k,
{
    let F = flat_entries(roots, sel, DEFAULT_MAX_LEVELS_BELOW as int);
    let bi = budget as int;
    lemma_page_start_bound(F, budget, pages, k - 1);
    let p = (k - 1) * bi;
    let id = F[p].id;
    assert(appears(F, id));
    lemma_first_idx_unique(F, p);
    lemma_fundamental_div_mod_converse(p, bi, k - 1, 0);
    assert(idx.contains_key(id) && idx[id] as int == k);
}

/// The lookup's domain is the tree: it maps an identifier exactly when
/// some node of the forest carries it.
pub proof fn lemma_index_domain(
    roots: Seq<TreeNode>,
    sel: SelectionModel,
    budget: nat,
    pages: Seq<TreePage>,
    idx: Map<i32, usize>,
)
    requires
        budget >= 1,
        paginate_post(roots, sel, budget, pages, idx),
    ensures
        forall|id: i32| #[trigger] idx.contains_key(id) <==> forest_contains(roots, id),
{
    assert forall|id: i32| #[trigger] idx.contains_key(id) <==> forest_contains(roots, id) by {
        lemma_appears_is_contains(roots, 0, -1, sel, DEFAULT_MAX_LEVELS_BELOW as int, id);
    }
}

/// Ancestor-open invariant, page level: on every page, every real entry
/// whose node lies on the breadcrumb chain renders open.
pub proof fn lemma_breadcrumbs_open(
    roots: Seq<TreeNode>,
    sel: SelectionModel,
    budget: nat,
    pages: Seq<TreePage>,
    idx: Map<i32, usize>,
)
    requires
        budget >= 1,
        paginate_post(roots, sel, budget, pages, idx),
    ensures
        forall|k: int, j: int|
            #![trigger models(pages[k].entries@)[j]]
            (0 <= k < pages.len() && 0 <= j < models(pages[k].entries@).len() && !models(
                pages[k].entries@,
            )[j].is_context && sel.breadcrumbs.contains(models(pages[k].entries@)[j].id))
                ==> models(pages[k].entries@)[j].is_open,
{
    let F = flat_entries(roots, sel, DEFAULT_MAX_LEVELS_BELOW as int);
    lemma_entries_wf(roots, 0, -1, sel, DEFAULT_MAX_LEVELS_BELOW as int);
    lemma_entries_flags(roots, 0, -1, sel, DEFAULT_MAX_LEVELS_BELOW as int);
    let n = F.len() as int;
    let bi = budget as int;
    assert forall|k: int, j: int|
        (0 <= k < pages.len() && 0 <= j < models(pages[k].entries@).len() && !models(
            pages[k].entries@,
        )[j].is_context && sel.breadcrumbs.contains(
            (#[trigger] models(pages[k].entries@)[j]).id,
        )) implies models(pages[k].entries@)[j].is_open by {
        lemma_page_start_bound(F, budget, pages, k);
        lemma_chain_at_wf(F, (k * bi) as nat);
        let chain_k = chain_at(F, (k * bi) as nat);
        let chunk_k = F.subrange(k * bi, min(k * bi + bi, n));
        if j < chain_k.len() {
            assert(models(pages[k].entries@)[j] == chain_k[j]);
        } else {
            assert(models(pages[k].entries@)[j] == chunk_k[j - chain_k.len()]);
            assert(chunk_k[j - chain_k.len()] == F[k * bi + (j - chain_k.len())]);
        }
    }
}

/// Highlight exclusivity, page level: every highlighted entry on any page
/// is the current node's entry, so two highlighted entries always carry
/// one and the same identifier.
pub proof fn lemma_highlight_unique(
    roots: Seq<TreeNode>,
    sel: SelectionModel,
    budget: nat,
    pages: Seq<TreePage>,
    idx: Map<i32, usize>,
)
    requires
        budget >= 1,
        paginate_post(roots, sel, budget, pages, idx),
    ensures
        forall|k: int, j: int|
            #![trigger models(pages[k].entries@)[j]]
            (0 <= k < pages.len() && 0 <= j < models(pages[k].entries@).len() && models(
                pages[k].entries@,
            )[j].is_highlighted) ==> sel.current_note_id == Some(
                models(pages[k].entries@)[j].id,
            ),
{
    let F = flat_entries(roots, sel, DEFAULT_MAX_LEVELS_BELOW as int);
    lemma_entries_wf(roots, 0, -1, sel, DEFAULT_MAX_LEVELS_BELOW as int);
    lemma_entries_flags(roots, 0, -1, sel, DEFAULT_MAX_LEVELS_BELOW as int);
    let n = F.len() as int;
    let bi = budget as int;
    assert forall|k: int, j: int|
        (0 <= k < pages.len() && 0 <= j < models(pages[k].entries@).len() && (#[trigger] models(
            pages[k].entries@,
        )[j]).is_highlighted) implies sel.current_note_id == Some(
        models(pages[k].entries@)[j].id,
    ) by {
        lemma_page_start_bound(F, budget, pages, k);
        lemma_chain_at_wf(F, (k * bi) as nat);
        let chain_k = chain_at(F, (k * bi) as nat);
        let chunk_k = F.subrange(k * bi, min(k * bi + bi, n));
        if j < chain_k.len() {
            assert(models(pages[k].entries@)[j] == chain_k[j]);
        } else {
            assert(models(pages[k].entries@)[j] == chunk_k[j - chain_k.len()]);
            assert(chunk_k[j - chain_k.len()] == F[k * bi + (j - chain_k.len())]);
        }
    }
}

} // verus!
