//! The meaning of a tree: the set of cells that it records as fully covered
//! (its leaves), and what queries and insertions do to such a set.
use crate::cell::{
    is_ancestor_or_self, is_strict_ancestor, lemma_ancestor_same_resolution, lemma_ancestor_self,
    lemma_ancestor_transitive, related, resolution_of,
};
use vstd::prelude::*;

verus! {

/// Why a query or an insertion was refused.
#[derive(Debug, Clone, Copy, PartialEq, Eq, Structural)]
pub enum HTreeError {
    /// The cell is coarser than the tree's (or node's) resolution.
    ResolutionTooCoarse,
    /// The grid library could not compute an ancestor of the cell.
    InvalidCell,
    /// The cell is a node of the tree that still records finer detail, so it is
    /// neither wholly inside nor wholly outside the region.
    ExactMatchQueriedOnRefinedNode,
}

/// Some cell of `region` is `x` or an ancestor of `x`.
pub open spec fn covered(region: Set<u64>, x: u64) -> bool {
    exists|l: u64| region.contains(l) && is_ancestor_or_self(l, x)
}

/// `x` is a strict ancestor of some cell of `region`.
pub open spec fn refined(region: Set<u64>, x: u64) -> bool {
    exists|l: u64| region.contains(l) && is_strict_ancestor(x, l)
}

/// The answer to a membership query for `x` on a set of leaves.
pub open spec fn query(region: Set<u64>, x: u64) -> Result<bool, HTreeError> {
    if refined(region, x) {
        Err(HTreeError::ExactMatchQueriedOnRefinedNode)
    } else {
        Ok(covered(region, x))
    }
}

/// The leaves after inserting `c`: every leaf related to `c` gives way to `c`.
pub open spec fn with_cell(region: Set<u64>, c: u64) -> Set<u64> {
    region.filter(|l: u64| !related(c, l)).insert(c)
}

/// The answer of a tree with root resolution `root_res` and leaves `region`.
pub open spec fn tree_query(root_res: nat, region: Set<u64>, x: u64) -> Result<bool, HTreeError> {
    if resolution_of(x) < root_res {
        Err(HTreeError::ResolutionTooCoarse)
    } else {
        query(region, x)
    }
}

/// The leaves after an insertion of `c` into a tree with root resolution
/// `root_res` (a cell that is too coarse is refused and changes nothing).
pub open spec fn tree_insert(root_res: nat, region: Set<u64>, c: u64) -> Set<u64> {
    if resolution_of(c) < root_res {
        region
    } else {
        with_cell(region, c)
    }
}

/// The leaves of a new tree after inserting `cells` in order.
pub open spec fn built(root_res: nat, cells: Seq<u64>) -> Set<u64>
    decreases cells.len(),
{
    if cells.len() == 0 {
        Set::empty()
    } else {
        tree_insert(root_res, built(root_res, cells.drop_last()), cells.last())
    }
}

} // verus!

verus! {

/// A cell unrelated to every leaf is outside the region.
pub proof fn lemma_query_unrelated(region: Set<u64>, x: u64)
    requires
        forall|l: u64| region.contains(l) ==> !related(x, l),
    ensures
        query(region, x) == Ok::<bool, HTreeError>(false),
{
    assert(!covered(region, x)) by {
        if covered(region, x) {
            let l = choose|l: u64| region.contains(l) && is_ancestor_or_self(l, x);
            assert(related(x, l));
        }
    }
    assert(!refined(region, x)) by {
        if refined(region, x) {
            let l = choose|l: u64| region.contains(l) && is_strict_ancestor(x, l);
            assert(related(x, l));
        }
    }
}

} // verus!

verus! {

/// No cell of `cells` lies strictly inside another.
pub open spec fn nesting_free(cells: Set<u64>) -> bool {
    forall|a: u64, b: u64| cells.contains(a) && cells.contains(b) ==> !is_strict_ancestor(a, b)
}

/// The cells of `cells` that a tree with root resolution `root_res` accepts.
pub open spec fn accepted(root_res: nat, cells: Seq<u64>) -> Set<u64> {
    cells.to_set().filter(|l: u64| resolution_of(l) >= root_res)
}

/// Every leaf of a built tree is one of the inserted cells.
proof fn lemma_built_from_cells(root_res: nat, cells: Seq<u64>)
    ensures
        built(root_res, cells).subset_of(cells.to_set()),
    decreases cells.len(),
{
    if cells.len() > 0 {
        let front = cells.drop_last();
        lemma_built_from_cells(root_res, front);
        assert forall|l: u64| built(root_res, cells).contains(l) implies cells.to_set().contains(
            l,
        ) by {
            if l == cells.last() {
                assert(cells[cells.len() - 1] == l);
            } else {
                assert(front.to_set().contains(l));
                let i = choose|i: int| 0 <= i < front.len() && front[i] == l;
                assert(cells[i] == l);
            }
        }
    }
}

/// When no inserted cell lies strictly inside another, the leaves are exactly
/// the accepted cells, whatever their order.
proof fn lemma_built_nesting_free(root_res: nat, cells: Seq<u64>)
    requires
        nesting_free(cells.to_set()),
    ensures
        built(root_res, cells) == accepted(root_res, cells),
    decreases cells.len(),
{
    if cells.len() > 0 {
        let front = cells.drop_last();
        let c = cells.last();
        assert forall|l: u64| front.to_set().contains(l) implies cells.to_set().contains(l) by {
            let i = choose|i: int| 0 <= i < front.len() && front[i] == l;
            assert(cells[i] == l);
        }
        assert(cells.to_set().contains(c)) by {
            assert(cells[cells.len() - 1] == c);
        }
        lemma_built_nesting_free(root_res, front);
        lemma_ancestor_self(c);
        assert forall|l: u64| #[trigger] built(root_res, cells).contains(l) == accepted(
            root_res,
            cells,
        ).contains(l) by {
            if cells.to_set().contains(l) && l != c {
                let i = choose|i: int| 0 <= i < cells.len() && cells[i] == l;
                assert(i != cells.len() - 1);
                assert(front[i] == l);
                assert(front.to_set().contains(l));
            }
            if front.to_set().contains(l) && l != c {
                assert(!is_strict_ancestor(c, l) && !is_strict_ancestor(l, c));
                assert(!related(c, l));
            }
        }
        assert(built(root_res, cells) =~= accepted(root_res, cells));
    }
}

/// Coverage: when no inserted cell lies strictly inside another, every cell
/// inside (or equal to) an accepted inserted cell is reported as contained.
pub proof fn lemma_coverage(root_res: nat, cells: Seq<u64>, s: u64, x: u64)
    requires
        nesting_free(cells.to_set()),
        cells.contains(s),
        resolution_of(s) >= root_res,
        is_ancestor_or_self(s, x),
    ensures
        tree_query(root_res, built(root_res, cells), x) == Ok::<bool, HTreeError>(true),
{
    lemma_built_nesting_free(root_res, cells);
    let region = built(root_res, cells);
    assert(region.contains(s));
    assert(covered(region, x));
    assert(!refined(region, x)) by {
        if refined(region, x) {
            let l = choose|l: u64| region.contains(l) && is_strict_ancestor(x, l);
            lemma_ancestor_transitive(s, x, l);
            if s == l {
                lemma_ancestor_same_resolution(x, l);
            }
            assert(cells.to_set().contains(s) && cells.to_set().contains(l));
            assert(!is_strict_ancestor(s, l));
        }
    }
}

/// Negative coverage: a cell unrelated to every inserted cell is reported as
/// not contained.
pub proof fn lemma_negative_coverage(root_res: nat, cells: Seq<u64>, x: u64)
    requires
        resolution_of(x) >= root_res,
        forall|i: int| 0 <= i < cells.len() ==> !related(#[trigger] cells[i], x),
    ensures
        tree_query(root_res, built(root_res, cells), x) == Ok::<bool, HTreeError>(false),
{
    lemma_built_from_cells(root_res, cells);
    let region = built(root_res, cells);
    assert forall|l: u64| region.contains(l) implies !related(x, l) by {
        assert(cells.to_set().contains(l));
        let i = choose|i: int| 0 <= i < cells.len() && cells[i] == l;
        assert(!related(cells[i], x));
    }
    lemma_query_unrelated(region, x);
}

/// Idempotence: inserting a cell a second time changes nothing.
pub proof fn lemma_insert_idempotent(root_res: nat, region: Set<u64>, c: u64)
    ensures
        tree_insert(root_res, tree_insert(root_res, region, c), c) == tree_insert(
            root_res,
            region,
            c,
        ),
{
    lemma_ancestor_self(c);
    assert(tree_insert(root_res, tree_insert(root_res, region, c), c) =~= tree_insert(
        root_res,
        region,
        c,
    ));
}

/// Coalescing: after inserting `c`, no leaf lies strictly inside `c`, and
/// every cell inside `c`, at any finer resolution, is reported as contained.
pub proof fn lemma_coalescing(root_res: nat, region: Set<u64>, c: u64, x: u64)
    requires
        resolution_of(c) >= root_res,
        is_ancestor_or_self(c, x),
    ensures
        forall|l: u64| #[trigger]
            tree_insert(root_res, region, c).contains(l) ==> !is_strict_ancestor(c, l),
        tree_query(root_res, tree_insert(root_res, region, c), x) == Ok::<bool, HTreeError>(true),
{
    lemma_ancestor_self(c);
    let after = tree_insert(root_res, region, c);
    assert(after.contains(c));
    assert(!refined(after, x)) by {
        if refined(after, x) {
            let l = choose|l: u64| after.contains(l) && is_strict_ancestor(x, l);
            lemma_ancestor_transitive(c, x, l);
            if l == c {
                lemma_ancestor_same_resolution(x, c);
            }
        }
    }
}

/// Order independence: inserting the same cells in two orders gives the same
/// leaves, when no cell lies strictly inside another.
pub proof fn lemma_order_independent(root_res: nat, a: Seq<u64>, b: Seq<u64>)
    requires
        a.to_set() == b.to_set(),
        nesting_free(a.to_set()),
    ensures
        built(root_res, a) == built(root_res, b),
{
    lemma_built_nesting_free(root_res, a);
    lemma_built_nesting_free(root_res, b);
}

} // verus!
