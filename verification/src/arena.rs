//! The arena: an append-only store that owns every node of one search run.
//! Nodes refer to their parents by stable integer index, so the parent chain
//! is acyclic and finite by construction.

use vstd::prelude::*;

use crate::catalog::{Catalog, Item};

verus! {

/// One search-tree node: the catalog index of the item it adds (the root has
/// none), the running total of the path from the root, and the arena index of
/// its parent (the root has none).
pub struct Node {
    pub item: Option<usize>,
    pub total: u64,
    pub parent: Option<usize>,
}

/// How classifying or walking one node can end without a match: the node's
/// total may still be short of the target, it may already have passed it, or
/// a walk may find a non-root node without a parent link, which signals arena
/// corruption and is fatal rather than an ordinary "no solution".
#[derive(Clone, Copy, Debug, PartialEq, Eq, Structural)]
pub enum SearchError {
    NoSolutionYet,
    PassedTarget,
    OrphanNode,
}

/// Every parent link points strictly below its own index, so any walk along
/// parent links reaches index 0 in finitely many steps.
pub open spec fn parents_decreasing(nodes: Seq<Node>) -> bool {
    forall|i: int| 0 <= i < nodes.len() ==> match #[trigger] nodes[i].parent {
        Some(p) => (p as int) < i,
        None => true,
    }
}

/// The non-root node at index `i` extends an earlier node by one catalog
/// item, and its total is the parent's total plus that item's value.
pub open spec fn node_wf_at(nodes: Seq<Node>, cat: Seq<Item>, i: int) -> bool {
    match (nodes[i].item, nodes[i].parent) {
        (Some(j), Some(p)) => {
            &&& (j as int) < cat.len()
            &&& (p as int) < i
            &&& nodes[i].total == nodes[p as int].total + cat[j as int].value
        },
        _ => false,
    }
}

/// The arena invariant: a single root at index 0 with no item, no parent and
/// total 0, and every other node well formed over the catalog.
pub open spec fn arena_wf(nodes: Seq<Node>, cat: Seq<Item>) -> bool {
    &&& nodes.len() >= 1
    &&& nodes[0].item is None
    &&& nodes[0].parent is None
    &&& nodes[0].total == 0
    &&& forall|i: int| 1 <= i < nodes.len() ==> #[trigger] node_wf_at(nodes, cat, i)
}

/// The walk from node `i` to the root meets no orphan: every node on it with
/// an item also has a parent link.
pub open spec fn orphan_free_from(nodes: Seq<Node>, i: int) -> bool
    decreases i,
{
    &&& 0 <= i < nodes.len()
    &&& match (nodes[i].item, nodes[i].parent) {
        (None, _) => true,
        (Some(j), Some(p)) => (p as int) < i && orphan_free_from(nodes, p as int),
        (Some(j), None) => false,
    }
}

/// The catalog indices collected on the walk from node `i` to the root, the
/// leaf's own item first.
pub open spec fn path_items(nodes: Seq<Node>, i: int) -> Seq<usize>
    decreases i,
{
    if 0 <= i < nodes.len() {
        match (nodes[i].item, nodes[i].parent) {
            (Some(j), Some(p)) => if (p as int) < i {
                seq![j] + path_items(nodes, p as int)
            } else {
                Seq::empty()
            },
            _ => Seq::empty(),
        }
    } else {
        Seq::empty()
    }
}

/// Every entry of `sel` is a valid catalog index.
pub open spec fn sel_ok(cat: Seq<Item>, sel: Seq<usize>) -> bool {
    forall|k: int| 0 <= k < sel.len() ==> (#[trigger] sel[k] as int) < cat.len()
}

/// The sum of the catalog values selected by `sel`.
pub open spec fn sel_sum(cat: Seq<Item>, sel: Seq<usize>) -> int
    decreases sel.len(),
{
    if sel.len() == 0 {
        0
    } else {
        cat[sel[0] as int].value + sel_sum(cat, sel.subrange(1, sel.len() as int))
    }
}

/// Unfolds `sel_sum` over a single prepended index.
pub proof fn lemma_sel_sum_cons(cat: Seq<Item>, j: usize, rest: Seq<usize>)
    ensures
        sel_sum(cat, seq![j] + rest) == cat[j as int].value + sel_sum(cat, rest),
{
    let whole = seq![j] + rest;
    assert(whole.subrange(1, whole.len() as int) =~= rest);
}

/// A selection of catalog indices sums to a non-negative amount, and to a
/// strictly positive one when it is non-empty, since every value is positive.
pub proof fn lemma_sel_sum_nonneg(cat: Seq<Item>, sel: Seq<usize>)
    requires
        sel_ok(cat, sel),
        forall|j: int| 0 <= j < cat.len() ==> #[trigger] cat[j].value > 0,
    ensures
        sel_sum(cat, sel) >= 0,
        sel.len() > 0 ==> sel_sum(cat, sel) >= 1,
    decreases sel.len(),
{
    if sel.len() > 0 {
        let rest = sel.subrange(1, sel.len() as int);
        assert(forall|k: int| 0 <= k < rest.len() ==> rest[k] == sel[k + 1]);
        lemma_sel_sum_nonneg(cat, rest);
    }
}

/// The arena invariant implies that every parent link points strictly below
/// its own index.
pub proof fn lemma_wf_parents_decreasing(nodes: Seq<Node>, cat: Seq<Item>)
    requires
        arena_wf(nodes, cat),
    ensures
        parents_decreasing(nodes),
{
    assert forall|i: int| 0 <= i < nodes.len() implies match #[trigger] nodes[i].parent {
        Some(p) => (p as int) < i,
        None => true,
    } by {
        if i >= 1 {
            assert(node_wf_at(nodes, cat, i));
        }
    }
}

/// Under the arena invariant the walk from any node is orphan free, its
/// collected indices are valid catalog indices, and their values sum to the
/// node's stored total.
pub proof fn lemma_path_sound(nodes: Seq<Node>, cat: Seq<Item>, i: int)
    requires
        arena_wf(nodes, cat),
        0 <= i < nodes.len(),
    ensures
        orphan_free_from(nodes, i),
        sel_ok(cat, path_items(nodes, i)),
        sel_sum(cat, path_items(nodes, i)) == nodes[i].total,
    decreases i,
{
    if i == 0 {
        assert(path_items(nodes, 0) =~= Seq::<usize>::empty());
    } else {
        assert(node_wf_at(nodes, cat, i));
        match (nodes[i].item, nodes[i].parent) {
            (Some(j), Some(p)) => {
                lemma_path_sound(nodes, cat, p as int);
                lemma_sel_sum_cons(cat, j, path_items(nodes, p as int));
                assert(path_items(nodes, i) == seq![j] + path_items(nodes, p as int));
            },
            _ => {},
        }
    }
}

/// Append-only store of nodes; index 0 is the root. Grows only through
/// `expand`; indices are stable for the lifetime of the arena.
pub struct Arena {
    nodes: Vec<Node>,
}

impl View for Arena {
    type V = Seq<Node>;

    closed spec fn view(&self) -> Seq<Node> {
        self.nodes@
    }
}

impl Arena {
    /// A fresh arena holding only the root node.
    pub fn new() -> (a: Arena)
        ensures
            a@.len() == 1,
            a@[0] == (Node { item: None, total: 0u64, parent: None }),
    {
        let root = Node { item: None, total: 0, parent: None };
        Arena { nodes: vec![root] }
    }

    /// Accepts a prepared node list exactly when every parent link points
    /// strictly below its own index, which is what the walk-based operations
    /// need in order to terminate.
    pub fn from_nodes(nodes: Vec<Node>) -> (r: Option<Arena>)
        ensures
            match r {
                Some(a) => a@ == nodes@ && parents_decreasing(nodes@),
                None => !parents_decreasing(nodes@),
            },
    {
        let mut k: usize = 0;
        while k < nodes.len()
            invariant
                k <= nodes@.len(),
                forall|i: int| 0 <= i < k ==> match #[trigger] nodes@[i].parent {
                    Some(p) => (p as int) < i,
                    None => true,
                },
            decreases nodes@.len() - k,
        {
            match nodes[k].parent {
                Some(p) => {
                    if p >= k {
                        return None;
                    }
                },
                None => {},
            }
            k = k + 1;
        }
        Some(Arena { nodes })
    }

    /// The number of nodes stored so far.
    pub fn len(&self) -> (n: usize)
        ensures
            n == self@.len(),
    {
        self.nodes.len()
    }

    /// The node at index `i`.
    pub fn node(&self, i: usize) -> (n: &Node)
        requires
            i < self@.len(),
        ensures
            *n == self@[i as int],
    {
        &self.nodes[i]
    }

    /// Appends one child of `parent_idx` per catalog item, in catalog order,
    /// and returns the contiguous range of newly assigned indices in the same
    /// order. The arena grows by exactly the catalog's length; every node
    /// already stored is left untouched.
    pub fn expand(&mut self, cat: &Catalog, parent_idx: usize) -> (children: Vec<usize>)
        requires
            arena_wf(old(self)@, cat@),
            (parent_idx as int) < old(self)@.len(),
            forall|j: int| 0 <= j < cat@.len() ==> old(self)@[parent_idx as int].total + #[trigger] cat@[j].value
                <= u64::MAX,
        ensures
            final(self)@.len() == old(self)@.len() + cat@.len(),
            final(self)@.subrange(0, old(self)@.len() as int) == old(self)@,
            children@.len() == cat@.len(),
            forall|k: int| 0 <= k < cat@.len() ==> #[trigger] children@[k] == old(self)@.len() + k,
            forall|k: int| 0 <= k < cat@.len() ==> #[trigger] final(self)@[old(self)@.len() + k] == (Node {
                item: Some(k as usize),
                total: (old(self)@[parent_idx as int].total + cat@[k].value) as u64,
                parent: Some(parent_idx),
            }),
            arena_wf(final(self)@, cat@),
    {
        let ghost base_s = self.nodes@;
        let base = self.nodes.len();
        let parent_total = self.nodes[parent_idx].total;
        let mut children: Vec<usize> = Vec::new();
        let mut j: usize = 0;
        while j < cat.len()
            invariant
                arena_wf(base_s, cat@),
                base_s.len() == base,
                (parent_idx as int) < base,
                parent_total == base_s[parent_idx as int].total,
                forall|t: int| 0 <= t < cat@.len() ==> parent_total + #[trigger] cat@[t].value <= u64::MAX,
                j <= cat@.len(),
                self@.len() == base + j,
                self@.subrange(0, base as int) == base_s,
                children@.len() == j,
                forall|k: int| 0 <= k < j ==> #[trigger] children@[k] == base + k,
                forall|k: int| 0 <= k < j ==> #[trigger] self@[base + k] == (Node {
                    item: Some(k as usize),
                    total: (parent_total + cat@[k].value) as u64,
                    parent: Some(parent_idx),
                }),
            decreases cat@.len() - j,
        {
            let it = cat.item_at(j);
            let total = parent_total + it.value;
            let idx = self.nodes.len();
            self.nodes.push(Node { item: Some(j), total, parent: Some(parent_idx) });
            children.push(idx);
            proof {
                assert(self@.subrange(0, base as int) =~= base_s);
            }
            j = j + 1;
        }
        proof {
            let fin = self@;
            assert forall|i: int| 1 <= i < fin.len() implies #[trigger] node_wf_at(fin, cat@, i) by {
                if i < base {
                    assert(node_wf_at(base_s, cat@, i));
                    assert(fin[i] == base_s[i]);
                    match (base_s[i].item, base_s[i].parent) {
                        (Some(jj), Some(p)) => {
                            assert(fin[p as int] == base_s[p as int]);
                        },
                        _ => {},
                    }
                } else {
                    let kk = i - base;
                    assert(fin[base + kk] == (Node {
                        item: Some(kk as usize),
                        total: (parent_total + cat@[kk].value) as u64,
                        parent: Some(parent_idx),
                    }));
                    assert(fin[parent_idx as int] == base_s[parent_idx as int]);
                }
            }
        }
        children
    }

    /// Walks parent links from `idx` back to the root, collecting the catalog
    /// index of each node's item, the leaf's own item first. Returns the
    /// orphan-node error exactly when the walk meets a node that has an item
    /// but no parent link, which signals arena corruption.
    pub fn reconstruct_indices(&self, idx: usize) -> (r: Result<Vec<usize>, SearchError>)
        requires
            parents_decreasing(self@),
            (idx as int) < self@.len(),
        ensures
            r is Ok <==> orphan_free_from(self@, idx as int),
            r matches Ok(sel) ==> sel@ == path_items(self@, idx as int),
            r matches Err(e) ==> e == SearchError::OrphanNode,
    {
        let mut items: Vec<usize> = Vec::new();
        let mut cur: usize = idx;
        loop
            invariant
                parents_decreasing(self@),
                (cur as int) < self@.len(),
                (idx as int) < self@.len(),
                orphan_free_from(self@, idx as int) <==> orphan_free_from(self@, cur as int),
                path_items(self@, idx as int) == items@ + path_items(self@, cur as int),
            decreases cur as int,
        {
            let node = self.node(cur);
            match (node.item, node.parent) {
                (Some(j), Some(p)) => {
                    proof {
                        assert(path_items(self@, cur as int) == seq![j] + path_items(
                            self@,
                            p as int,
                        ));
                        assert(items@ + path_items(self@, cur as int) =~= (items@ + seq![j])
                            + path_items(self@, p as int));
                    }
                    items.push(j);
                    cur = p;
                },
                (Some(_), None) => {
                    return Err(SearchError::OrphanNode);
                },
                (None, _) => {
                    proof {
                        assert(path_items(self@, cur as int) =~= Seq::<usize>::empty());
                        assert(items@ + path_items(self@, cur as int) =~= items@);
                    }
                    return Ok(items);
                },
            }
        }
    }

    /// Classifies the node at `idx` against the target and, on an exact
    /// match, reconstructs the chosen items. A total beyond the target prunes
    /// the branch, a total short of it asks for expansion, and equality
    /// returns the path of items, the leaf's item first.
    pub fn visit(&self, cat: &Catalog, idx: usize, target: u64) -> (r: Result<
        Vec<Item>,
        SearchError,
    >)
        requires
            arena_wf(self@, cat@),
            (idx as int) < self@.len(),
        ensures
            r is Ok <==> self@[idx as int].total == target,
            r matches Ok(v) ==> {
                let sel = path_items(self@, idx as int);
                &&& sel_ok(cat@, sel)
                &&& v@.len() == sel.len()
                &&& (forall|k: int| 0 <= k < v@.len() ==> #[trigger] v@[k] == cat@[sel[k] as int])
                &&& sel_sum(cat@, sel) == target
            },
            r matches Err(e) ==> e == (if self@[idx as int].total > target {
                SearchError::PassedTarget
            } else {
                SearchError::NoSolutionYet
            }),
    {
        let node_total = self.node(idx).total;
        if node_total > target {
            return Err(SearchError::PassedTarget);
        }
        if node_total != target {
            return Err(SearchError::NoSolutionYet);
        }
        proof {
            lemma_wf_parents_decreasing(self@, cat@);
            lemma_path_sound(self@, cat@, idx as int);
        }
        match self.reconstruct_indices(idx) {
            Ok(sel) => {
                let ghost spec_sel = path_items(self@, idx as int);
                let mut v: Vec<Item> = Vec::new();
                let mut k: usize = 0;
                while k < sel.len()
                    invariant
                        sel@ == spec_sel,
                        sel_ok(cat@, spec_sel),
                        k <= sel@.len(),
                        v@.len() == k,
                        forall|t: int| 0 <= t < k ==> #[trigger] v@[t] == cat@[spec_sel[t] as int],
                    decreases sel@.len() - k,
                {
                    let j = sel[k];
                    v.push(cat.item_at(j).clone());
                    k = k + 1;
                }
                Ok(v)
            },
            Err(e) => Err(e),
        }
    }
}

} // verus!
