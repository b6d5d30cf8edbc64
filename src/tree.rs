//! The tree itself: root nodes at a fixed resolution, each refined by sorted
//! children one resolution finer, down to leaves whose whole area is covered.
use crate::cell::{
    ancestor_at, cell_is_parent_of, cell_parent, cell_resolution, is_ancestor_or_self,
    is_strict_ancestor, lemma_ancestor_ancestor, lemma_ancestor_at_is_ancestor,
    lemma_ancestor_same_resolution, lemma_ancestor_self, lemma_ancestor_transitive,
    lemma_ancestors_comparable, lemma_disjoint_areas, lemma_resolution_bound, related,
    resolution_of,
};
use crate::region::{
    covered, lemma_query_unrelated, query, refined, tree_insert, tree_query, with_cell,
    HTreeError,
};
use vstd::prelude::*;

verus! {

/// One cell of the tree and, once it is refined, its children one resolution
/// finer, sorted by cell. A node without children covers its whole area.
#[derive(Debug)]
pub struct Node {
    hex: u64,
    children: Option<Vec<Node>>,
}

/// `child` lies inside `parent`, exactly one resolution finer.
pub open spec fn is_child_cell(parent: u64, child: u64) -> bool {
    resolution_of(child) == resolution_of(parent) + 1 && ancestor_at(child, resolution_of(parent))
        == parent
}

/// The cells of `s` are strictly increasing.
pub closed spec fn sorted(s: Seq<Node>) -> bool {
    forall|i: int, j: int| 0 <= i < j < s.len() ==> s[i].hex < s[j].hex
}

/// Well-formedness of a node: a refined node has at least one child, its
/// children are sorted, and each is a well-formed child cell.
pub closed spec fn node_wf(n: Node) -> bool
    decreases n, 1int,
{
    match n.children {
        None => true,
        Some(ch) => ch@.len() > 0 && sorted(ch@) && children_wf(ch@, ch@.len() as int, n.hex),
    }
}

/// The first `k` nodes of `s` are well-formed child cells of `p`.
pub closed spec fn children_wf(s: Seq<Node>, k: int, p: u64) -> bool
    decreases s, k,
{
    if k <= 0 || k > s.len() {
        true
    } else {
        children_wf(s, k - 1, p) && is_child_cell(p, s[k - 1].hex) && node_wf(s[k - 1])
    }
}

/// The leaves of a node: the cells of the childless nodes below it.
pub closed spec fn leaves(n: Node) -> Set<u64>
    decreases n, 1int,
{
    match n.children {
        None => set![n.hex],
        Some(ch) => leaves_upto(ch@, ch@.len() as int),
    }
}

/// The leaves of the first `k` nodes of `s`.
pub closed spec fn leaves_upto(s: Seq<Node>, k: int) -> Set<u64>
    decreases s, k,
{
    if k <= 0 || k > s.len() {
        Set::empty()
    } else {
        leaves_upto(s, k - 1).union(leaves(s[k - 1]))
    }
}

/// The leaves of all the nodes of `s`.
pub closed spec fn seq_region(s: Seq<Node>) -> Set<u64> {
    leaves_upto(s, s.len() as int)
}

/// `l` is a leaf of one of the nodes of `s`.
pub closed spec fn seq_has(s: Seq<Node>, l: u64) -> bool {
    exists|i: int| 0 <= i < s.len() && #[trigger] leaves(s[i]).contains(l)
}

/// A sorted run of well-formed nodes, all at resolution `r`.
pub closed spec fn nodes_wf(s: Seq<Node>, r: nat) -> bool {
    &&& sorted(s)
    &&& forall|i: int| 0 <= i < s.len() ==> resolution_of(#[trigger] s[i].hex) == r && node_wf(s[i])
}

/// Every node of `s` is a child cell of `p`.
pub closed spec fn all_children_of(s: Seq<Node>, p: u64) -> bool {
    forall|i: int| 0 <= i < s.len() ==> is_child_cell(p, #[trigger] s[i].hex)
}

impl Node {
    /// The cell of this node.
    pub closed spec fn cell(self) -> u64 {
        self.hex
    }

    /// See `node_wf`.
    pub closed spec fn wf(self) -> bool {
        node_wf(self)
    }

    /// The cells whose whole area this subtree covers.
    pub closed spec fn region(self) -> Set<u64> {
        leaves(self)
    }
}

proof fn lemma_children_wf(s: Seq<Node>, k: int, p: u64, i: int)
    requires
        0 <= i < k <= s.len(),
        children_wf(s, k, p),
    ensures
        is_child_cell(p, s[i].hex),
        node_wf(s[i]),
    decreases k,
{
    if i < k - 1 {
        lemma_children_wf(s, k - 1, p, i);
    }
}

proof fn lemma_children_wf_intro(s: Seq<Node>, k: int, p: u64)
    requires
        0 <= k <= s.len(),
        forall|i: int| 0 <= i < k ==> is_child_cell(p, #[trigger] s[i].hex) && node_wf(s[i]),
    ensures
        children_wf(s, k, p),
    decreases k,
{
    if k > 0 {
        lemma_children_wf_intro(s, k - 1, p);
        assert(is_child_cell(p, s[k - 1].hex) && node_wf(s[k - 1]));
    }
}

proof fn lemma_leaves_upto(s: Seq<Node>, k: int, l: u64)
    requires
        0 <= k <= s.len(),
    ensures
        leaves_upto(s, k).contains(l) <==> exists|i: int|
            0 <= i < k && #[trigger] leaves(s[i]).contains(l),
    decreases k,
{
    if k > 0 {
        lemma_leaves_upto(s, k - 1, l);
        if leaves(s[k - 1]).contains(l) {
            assert(0 <= k - 1 < k && leaves(s[k - 1]).contains(l));
        }
    }
}

/// Membership in `seq_region` is membership in the leaves of one node.
proof fn lemma_seq_region(s: Seq<Node>)
    ensures
        forall|l: u64| #[trigger] seq_region(s).contains(l) == seq_has(s, l),
{
    assert forall|l: u64| #[trigger] seq_region(s).contains(l) == seq_has(s, l) by {
        lemma_leaves_upto(s, s.len() as int, l);
    }
}

/// The children of a well-formed refined node form a well-formed run.
proof fn lemma_node_children(n: Node)
    requires
        node_wf(n),
        n.children is Some,
    ensures
        nodes_wf(n.children->Some_0@, resolution_of(n.hex) + 1),
        all_children_of(n.children->Some_0@, n.hex),
        n.children->Some_0@.len() > 0,
        leaves(n) == seq_region(n.children->Some_0@),
{
    let s = n.children->Some_0@;
    assert forall|i: int| 0 <= i < s.len() implies resolution_of(#[trigger] s[i].hex) == resolution_of(
        n.hex,
    ) + 1 && node_wf(s[i]) && is_child_cell(n.hex, s[i].hex) by {
        lemma_children_wf(s, s.len() as int, n.hex, i);
    }
}

/// Every leaf lies inside the cell of the node that holds it.
proof fn lemma_leaf_below(n: Node, l: u64)
    requires
        node_wf(n),
        leaves(n).contains(l),
    ensures
        is_ancestor_or_self(n.hex, l),
    decreases n,
{
    match n.children {
        None => {
            lemma_ancestor_self(l);
        },
        Some(ch) => {
            lemma_node_children(n);
            lemma_seq_region(ch@);
            let i = choose|i: int| 0 <= i < ch@.len() && #[trigger] leaves(ch@[i]).contains(l);
            assert(decreases_to!(ch => ch@));
            assert(decreases_to!(ch@ => ch@[i]));
            lemma_leaf_below(ch@[i], l);
            lemma_ancestor_transitive(n.hex, ch@[i].hex, l);
        },
    }
}

/// A well-formed node has a leaf; a refined one has a leaf strictly inside it.
proof fn lemma_some_leaf(n: Node) -> (l: u64)
    requires
        node_wf(n),
    ensures
        leaves(n).contains(l),
        n.children is Some ==> is_strict_ancestor(n.hex, l),
    decreases n,
{
    match n.children {
        None => n.hex,
        Some(ch) => {
            lemma_node_children(n);
            lemma_seq_region(ch@);
            assert(decreases_to!(ch => ch@));
            assert(decreases_to!(ch@ => ch@[0]));
            let l = lemma_some_leaf(ch@[0]);
            assert(0 <= 0 < ch@.len() && leaves(ch@[0]).contains(l));
            lemma_leaf_below(ch@[0], l);
            lemma_ancestor_transitive(n.hex, ch@[0].hex, l);
            l
        },
    }
}

} // verus!

verus! {

/// Binary search of a sorted run for the node whose cell is `key`: `Ok` with
/// its position, or `Err` with the position where it would stand.
fn search(nodes: &Vec<Node>, key: u64) -> (r: Result<usize, usize>)
    requires
        sorted(nodes@),
    ensures
        match r {
            Ok(i) => i < nodes@.len() && nodes@[i as int].hex == key,
            Err(i) => i <= nodes@.len() && (forall|j: int| 0 <= j < i ==> nodes@[j].hex < key)
                && (forall|j: int| i <= j < nodes@.len() ==> nodes@[j].hex > key),
        },
{
    let mut lo: usize = 0;
    let mut hi: usize = nodes.len();
    while lo < hi
        invariant
            lo <= hi <= nodes@.len(),
            sorted(nodes@),
            forall|j: int| 0 <= j < lo ==> nodes@[j].hex < key,
            forall|j: int| hi <= j < nodes@.len() ==> nodes@[j].hex > key,
        decreases hi - lo,
    {
        let mid = lo + (hi - lo) / 2;
        let h = nodes[mid].hex;
        if h == key {
            return Ok(mid);
        } else if h < key {
            lo = mid + 1;
        } else {
            hi = mid;
        }
    }
    Err(lo)
}

impl Node {
    /// A leaf node for `hex`.
    pub fn new(hex: u64) -> (n: Node)
        ensures
            n.wf(),
            n.cell() == hex,
            n.region() == set![hex],
    {
        Node { hex, children: None }
    }

    /// The resolution of this node's cell.
    pub fn resolution(&self) -> (r: u8)
        ensures
            r as nat == resolution_of(self.cell()),
    {
        cell_resolution(self.hex)
    }

    /// Whether `hex` lies in the area that this subtree covers; refused for
    /// the cell of a node that is still refined.
    pub fn contains(&self, hex: u64) -> (r: Result<bool, HTreeError>)
        requires
            self.wf(),
            resolution_of(hex) >= resolution_of(self.cell()),
        ensures
            r == query(self.region(), hex),
        decreases 32 - 2 * resolution_of(self.cell()),
    {
        let inside = match cell_is_parent_of(self.hex, hex) {
            Ok(b) => b,
            Err(_) => return Err(HTreeError::InvalidCell),
        };
        if !inside {
            proof {
                assert forall|l: u64| leaves(*self).contains(l) implies !related(hex, l) by {
                    lemma_leaf_below(*self, l);
                    if is_ancestor_or_self(l, hex) {
                        lemma_ancestor_transitive(self.hex, l, hex);
                    }
                    if is_ancestor_or_self(hex, l) {
                        lemma_ancestors_comparable(self.hex, hex, l);
                    }
                }
                lemma_query_unrelated(leaves(*self), hex);
            }
            return Ok(false);
        }
        match &self.children {
            None => {
                proof {
                    assert(leaves(*self).contains(self.hex));
                    if is_strict_ancestor(hex, self.hex) {
                        lemma_ancestor_same_resolution(hex, self.hex);
                    }
                }
                Ok(true)
            },
            Some(ch) => {
                proof {
                    lemma_node_children(*self);
                    lemma_resolution_bound(self.hex);
                    lemma_resolution_bound(hex);
                }
                if hex == self.hex {
                    proof {
                        let l = lemma_some_leaf(*self);
                    }
                    return Err(HTreeError::ExactMatchQueriedOnRefinedNode);
                }
                proof {
                    if resolution_of(hex) == resolution_of(self.hex) {
                        lemma_ancestor_same_resolution(self.hex, hex);
                    }
                }
                let r = cell_resolution(self.hex);
                let promoted = match cell_parent(hex, r + 1) {
                    Ok(p) => p,
                    Err(_) => return Err(HTreeError::InvalidCell),
                };
                proof {
                    lemma_ancestor_at_is_ancestor(hex, (r + 1) as nat);
                }
                find_among(ch, promoted, hex)
            },
        }
    }
}

/// The query on a run of sibling nodes, all at the resolution of `promoted`,
/// where `promoted` is the ancestor of `hex` at that resolution.
fn find_among(nodes: &Vec<Node>, promoted: u64, hex: u64) -> (r: Result<bool, HTreeError>)
    requires
        nodes_wf(nodes@, resolution_of(promoted)),
        is_ancestor_or_self(promoted, hex),
    ensures
        r == query(seq_region(nodes@), hex),
    decreases 33 - 2 * resolution_of(promoted),
{
    let s = Ghost(nodes@);
    proof {
        lemma_seq_region(s@);
        lemma_resolution_bound(promoted);
    }
    match search(nodes, promoted) {
        Ok(pos) => {
            proof {
                let own = leaves(s@[pos as int]);
                assert forall|l: u64| seq_region(s@).contains(l) && related(hex, l) implies own.contains(
                    l,
                ) by {
                    let i = choose|i: int| 0 <= i < s@.len() && #[trigger] leaves(s@[i]).contains(l);
                    if i != pos {
                        lemma_leaf_below(s@[i], l);
                        lemma_disjoint_areas(s@[i].hex, promoted, hex, l);
                    }
                }
                assert forall|l: u64| own.contains(l) implies seq_region(s@).contains(l) by {
                    assert(0 <= pos < s@.len() && leaves(s@[pos as int]).contains(l));
                }
                assert(covered(seq_region(s@), hex) == covered(own, hex)) by {
                    if covered(seq_region(s@), hex) {
                        let l = choose|l: u64|
                            seq_region(s@).contains(l) && is_ancestor_or_self(l, hex);
                        assert(related(hex, l));
                    }
                    if covered(own, hex) {
                        let l = choose|l: u64| own.contains(l) && is_ancestor_or_self(l, hex);
                        assert(seq_region(s@).contains(l));
                    }
                }
                assert(refined(seq_region(s@), hex) == refined(own, hex)) by {
                    if refined(seq_region(s@), hex) {
                        let l = choose|l: u64|
                            seq_region(s@).contains(l) && is_strict_ancestor(hex, l);
                        assert(related(hex, l));
                    }
                    if refined(own, hex) {
                        let l = choose|l: u64| own.contains(l) && is_strict_ancestor(hex, l);
                        assert(seq_region(s@).contains(l));
                    }
                }
            }
            nodes[pos].contains(hex)
        },
        Err(_) => {
            proof {
                assert forall|l: u64| seq_region(s@).contains(l) implies !related(hex, l) by {
                    let i = choose|i: int| 0 <= i < s@.len() && #[trigger] leaves(s@[i]).contains(l);
                    lemma_leaf_below(s@[i], l);
                    lemma_disjoint_areas(s@[i].hex, promoted, hex, l);
                }
                lemma_query_unrelated(seq_region(s@), hex);
            }
            Ok(false)
        },
    }
}

} // verus!

verus! {

impl Node {
    /// Records `hex`, a cell inside this node's cell. Inserting the node's own
    /// cell drops all its children (the whole area is covered); otherwise the
    /// child on the way to `hex` is found or created and the insertion goes on
    /// there.
    pub fn insert(&mut self, hex: u64)
        requires
            old(self).wf(),
            is_ancestor_or_self(old(self).cell(), hex),
        ensures
            final(self).wf(),
            final(self).cell() == old(self).cell(),
            final(self).region() == with_cell(old(self).region(), hex),
        decreases 32 - 2 * resolution_of(old(self).cell()),
    {
        let ghost n0 = *self;
        proof {
            lemma_resolution_bound(self.hex);
            lemma_resolution_bound(hex);
        }
        if hex == self.hex {
            self.children = None;
            proof {
                assert forall|l: u64| leaves(n0).contains(l) implies related(hex, l) by {
                    lemma_leaf_below(n0, l);
                }
                assert(with_cell(leaves(n0), hex) =~= set![hex]);
            }
            return;
        }
        proof {
            if resolution_of(hex) == resolution_of(self.hex) {
                lemma_ancestor_same_resolution(self.hex, hex);
            }
        }
        let r = cell_resolution(self.hex);
        let child_res: u8 = r + 1;
        let promoted = if cell_resolution(hex) == child_res {
            proof {
                lemma_ancestor_self(hex);
            }
            hex
        } else {
            match cell_parent(hex, child_res) {
                Ok(p) => p,
                Err(_) => return,
            }
        };
        proof {
            lemma_ancestor_at_is_ancestor(hex, child_res as nat);
            lemma_ancestor_ancestor(hex, child_res as nat, r as nat);
            assert(is_child_cell(self.hex, promoted));
        }
        let mut ch = match self.children.take() {
            Some(v) => v,
            None => Vec::new(),
        };
        let ghost s0 = ch@;
        proof {
            if n0.children is Some {
                lemma_node_children(n0);
            } else {
                lemma_seq_region(s0);
                assert(with_cell(leaves(n0), hex) =~= with_cell(seq_region(s0), hex));
            }
        }
        insert_among(&mut ch, promoted, hex);
        proof {
            assert(all_children_of(ch@, n0.hex));
            assert forall|i: int| 0 <= i < ch@.len() implies is_child_cell(
                n0.hex,
                #[trigger] ch@[i].hex,
            ) && node_wf(ch@[i]) by {}
            lemma_children_wf_intro(ch@, ch@.len() as int, n0.hex);
        }
        self.children = Some(ch);
    }
}

/// Inserts `hex` below a run of sibling nodes at the resolution of
/// `promoted`, its ancestor there: into the node for `promoted`, or into a new
/// node for it placed where it keeps the run sorted.
fn insert_among(nodes: &mut Vec<Node>, promoted: u64, hex: u64)
    requires
        nodes_wf(old(nodes)@, resolution_of(promoted)),
        is_ancestor_or_self(promoted, hex),
    ensures
        nodes_wf(final(nodes)@, resolution_of(promoted)),
        final(nodes)@.len() > 0,
        forall|p: u64|
            all_children_of(old(nodes)@, p) && is_child_cell(p, promoted) ==> #[trigger] all_children_of(
                final(nodes)@,
                p,
            ),
        seq_region(final(nodes)@) == with_cell(seq_region(old(nodes)@), hex),
    decreases 33 - 2 * resolution_of(promoted),
{
    let ghost s0 = nodes@;
    proof {
        lemma_seq_region(s0);
        lemma_resolution_bound(promoted);
    }
    match search(nodes, promoted) {
        Ok(pos) => {
            nodes[pos].insert(hex);
            proof {
                let s1 = nodes@;
                lemma_seq_region(s1);
                assert forall|l: u64| #[trigger]
                    seq_region(s1).contains(l) == with_cell(seq_region(s0), hex).contains(l) by {
                    if seq_has(s1, l) {
                        let i = choose|i: int| 0 <= i < s1.len() && #[trigger] leaves(s1[i]).contains(l);
                        if i != pos {
                            lemma_leaf_below(s0[i], l);
                            lemma_disjoint_areas(s0[i].hex, promoted, hex, l);
                            assert(leaves(s0[i]).contains(l));
                        }
                    }
                    if l == hex {
                        assert(leaves(s1[pos as int]).contains(l));
                    }
                    if seq_has(s0, l) && !related(hex, l) {
                        let i = choose|i: int| 0 <= i < s0.len() && #[trigger] leaves(s0[i]).contains(l);
                        assert(leaves(s1[i]).contains(l));
                    }
                }
                assert(seq_region(s1) =~= with_cell(seq_region(s0), hex));
                assert forall|p: u64|
                    all_children_of(s0, p) && is_child_cell(p, promoted) implies #[trigger] all_children_of(
                    s1,
                    p,
                ) by {
                    assert forall|i: int| 0 <= i < s1.len() implies is_child_cell(
                        p,
                        #[trigger] s1[i].hex,
                    ) by {
                        assert(s1[i].hex == s0[i].hex);
                    }
                }
                assert forall|i: int| 0 <= i < s1.len() implies resolution_of(#[trigger] s1[i].hex)
                    == resolution_of(promoted) && node_wf(s1[i]) by {
                    assert(s1[i].hex == s0[i].hex);
                }
                assert(sorted(s1)) by {
                    assert forall|i: int, j: int| 0 <= i < j < s1.len() implies s1[i].hex
                        < s1[j].hex by {
                        assert(s1[i].hex == s0[i].hex);
                        assert(s1[j].hex == s0[j].hex);
                    }
                }
            }
        },
        Err(pos) => {
            let mut node = Node::new(promoted);
            if promoted != hex {
                node.insert(hex);
            }
            proof {
                assert(leaves(node) =~= set![hex]);
            }
            nodes.insert(pos, node);
            proof {
                let s1 = nodes@;
                lemma_seq_region(s1);
                assert forall|l: u64| #[trigger]
                    seq_region(s1).contains(l) == with_cell(seq_region(s0), hex).contains(l) by {
                    if seq_has(s1, l) {
                        let i = choose|i: int| 0 <= i < s1.len() && #[trigger] leaves(s1[i]).contains(l);
                        if i < pos {
                            assert(leaves(s0[i]).contains(l));
                        } else if i > pos {
                            assert(leaves(s0[i - 1]).contains(l));
                        }
                    }
                    if seq_has(s0, l) {
                        let i = choose|i: int| 0 <= i < s0.len() && #[trigger] leaves(s0[i]).contains(l);
                        lemma_leaf_below(s0[i], l);
                        lemma_disjoint_areas(s0[i].hex, promoted, hex, l);
                        if i < pos {
                            assert(leaves(s1[i]).contains(l));
                        } else {
                            assert(leaves(s1[i + 1]).contains(l));
                        }
                    }
                    if l == hex {
                        assert(leaves(s1[pos as int]).contains(l));
                    }
                }
                assert(seq_region(s1) =~= with_cell(seq_region(s0), hex));
                assert forall|p: u64|
                    all_children_of(s0, p) && is_child_cell(p, promoted) implies #[trigger] all_children_of(
                    s1,
                    p,
                ) by {
                    assert forall|i: int| 0 <= i < s1.len() implies is_child_cell(
                        p,
                        #[trigger] s1[i].hex,
                    ) by {
                        if i > pos {
                            assert(s1[i] == s0[i - 1]);
                        }
                    }
                }
                assert forall|i: int| 0 <= i < s1.len() implies resolution_of(#[trigger] s1[i].hex)
                    == resolution_of(promoted) && node_wf(s1[i]) by {
                    if i > pos {
                        assert(s1[i] == s0[i - 1]);
                    }
                }
                assert(sorted(s1)) by {
                    assert forall|i: int, j: int| 0 <= i < j < s1.len() implies s1[i].hex
                        < s1[j].hex by {
                        if j < pos {
                        } else if i > pos {
                            assert(s1[i] == s0[i - 1]);
                            assert(s1[j] == s0[j - 1]);
                        } else if i == pos {
                            assert(s1[j] == s0[j - 1]);
                        } else if j == pos {
                        } else {
                            assert(s1[j] == s0[j - 1]);
                        }
                    }
                }
            }
        },
    }
}

} // verus!

verus! {

/// A tree of H3 cells for fast region-membership tests: sorted root nodes at
/// `root_res`, the coarsest resolution that the tree indexes.
#[derive(Debug)]
pub struct HTree {
    root_res: u8,
    nodes: Vec<Node>,
}

impl HTree {
    /// The root nodes are a sorted run of well-formed nodes at the root
    /// resolution.
    pub closed spec fn wf(self) -> bool {
        nodes_wf(self.nodes@, self.root_res as nat)
    }

    /// The resolution of the root nodes.
    pub closed spec fn root_resolution(self) -> nat {
        self.root_res as nat
    }

    /// The cells whose whole area the tree covers.
    pub closed spec fn region(self) -> Set<u64> {
        seq_region(self.nodes@)
    }

    /// An empty tree with root resolution `root_res`.
    pub fn new(root_res: u8) -> (t: HTree)
        ensures
            t.wf(),
            t.root_resolution() == root_res as nat,
            t.region() == Set::<u64>::empty(),
    {
        let t = HTree { root_res, nodes: Vec::new() };
        proof {
            lemma_seq_region(t.nodes@);
            assert(seq_region(t.nodes@) =~= Set::<u64>::empty());
        }
        t
    }

    /// Records `hex`. A cell coarser than the root resolution is refused and
    /// the tree is left as it was.
    pub fn insert(&mut self, hex: u64) -> (r: Result<(), HTreeError>)
        requires
            old(self).wf(),
        ensures
            final(self).wf(),
            final(self).root_resolution() == old(self).root_resolution(),
            r == (if resolution_of(hex) < old(self).root_resolution() {
                Err(HTreeError::ResolutionTooCoarse)
            } else {
                Ok(())
            }),
            final(self).region() == tree_insert(old(self).root_resolution(), old(self).region(), hex),
    {
        let res = cell_resolution(hex);
        if res < self.root_res {
            return Err(HTreeError::ResolutionTooCoarse);
        }
        let promoted = if res == self.root_res {
            proof {
                lemma_ancestor_self(hex);
            }
            hex
        } else {
            match cell_parent(hex, self.root_res) {
                Ok(p) => p,
                Err(_) => return Err(HTreeError::InvalidCell),
            }
        };
        proof {
            lemma_ancestor_at_is_ancestor(hex, self.root_res as nat);
        }
        insert_among(&mut self.nodes, promoted, hex);
        Ok(())
    }

    /// Whether `hex` lies in the region. Refused for a cell coarser than the
    /// root resolution, and for the cell of a node that is still refined.
    pub fn contains(&self, hex: u64) -> (r: Result<bool, HTreeError>)
        requires
            self.wf(),
        ensures
            r == tree_query(self.root_resolution(), self.region(), hex),
    {
        let res = cell_resolution(hex);
        if res < self.root_res {
            return Err(HTreeError::ResolutionTooCoarse);
        }
        let promoted = match cell_parent(hex, self.root_res) {
            Ok(p) => p,
            Err(_) => return Err(HTreeError::InvalidCell),
        };
        proof {
            lemma_ancestor_at_is_ancestor(hex, self.root_res as nat);
        }
        find_among(&self.nodes, promoted, hex)
    }
}

} // verus!
