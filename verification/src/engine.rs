//! The search engine: seeds the frontier with the root index, then
//! repeatedly pops an index, classifies the node, and either returns the
//! reconstructed path, prunes the branch, or expands the node's children
//! into the arena and pushes their indices.
//!
//! The same loop runs as breadth-first or depth-first search depending only
//! on which frontier variant is injected.

use vstd::prelude::*;

use crate::arena::{
    arena_wf, path_items, sel_ok, sel_sum, Arena, Node, SearchError,
    lemma_sel_sum_nonneg,
};
use crate::catalog::{Catalog, Item};
use crate::frontier::{removed_at, Container, Queue, Stack};

verus! {

/// Some selection of catalog indices (repetition allowed) sums exactly to
/// `amount`.
pub open spec fn reachable(cat: Seq<Item>, amount: int) -> bool {
    exists|sel: Seq<usize>| sel_ok(cat, sel) && #[trigger] sel_sum(cat, sel) == amount
}

/// `it` equals one of the catalog's items.
pub open spec fn item_in_cat(cat: Seq<Item>, it: Item) -> bool {
    exists|j: int| 0 <= j < cat.len() && it == #[trigger] cat[j]
}

/// Every entry of `items` equals one of the catalog's items.
pub open spec fn items_from(cat: Seq<Item>, items: Seq<Item>) -> bool {
    forall|t: int| 0 <= t < items.len() ==> item_in_cat(cat, #[trigger] items[t])
}

/// The sum of the values of a sequence of items.
pub open spec fn items_sum(items: Seq<Item>) -> int
    decreases items.len(),
{
    if items.len() == 0 {
        0
    } else {
        items[0].value + items_sum(items.subrange(1, items.len() as int))
    }
}

/// What every search variant promises. A returned path is made of catalog
/// items and its values sum exactly to the target, and some selection of
/// catalog items reaches the target; `None` comes exactly when no selection
/// of catalog items (repetition allowed) sums to the target.
pub open spec fn search_post(cat: Seq<Item>, target: u64, r: Option<Vec<Item>>) -> bool {
    match r {
        Some(v) => {
            &&& items_from(cat, v@)
            &&& items_sum(v@) == target
            &&& reachable(cat, target as int)
        },
        None => !reachable(cat, target as int),
    }
}

/// No node was ever expanded from a pruned index: every non-root node's
/// parent has a total strictly below the target, so the arena never grew
/// from a node whose total had passed the target.
pub open spec fn never_expanded_pruned(nodes: Seq<Node>, target: u64) -> bool {
    forall|i: int| 1 <= i < nodes.len() ==> match (#[trigger] nodes[i]).parent {
        Some(p) => 0 <= (p as int) < nodes.len() && nodes[p as int].total < target,
        None => false,
    }
}

/// The node at arena index `e` can still be completed: its total has not
/// passed the target, and some further selection makes up the remainder.
spec fn covers(nodes: Seq<Node>, cat: Seq<Item>, target: u64, e: usize) -> bool {
    &&& (e as int) < nodes.len()
    &&& nodes[e as int].total <= target
    &&& reachable(cat, target - nodes[e as int].total)
}

/// Some pending frontier entry still covers the target.
spec fn frontier_covers(nodes: Seq<Node>, cat: Seq<Item>, target: u64, f: Seq<usize>) -> bool {
    exists|t: int| 0 <= t < f.len() && covers(nodes, cat, target, #[trigger] f[t])
}

/// Work bound for one pending entry with the given remaining slack: large
/// enough that expanding a node strictly pays for all of its children.
spec fn pot(k: nat, slack: nat) -> nat
    decreases slack,
{
    if slack == 0 {
        1
    } else {
        1 + k * pot(k, (slack - 1) as nat)
    }
}

/// How far a node's total still is from the target; zero once it has
/// reached or passed it.
spec fn slack_of(total: u64, target: u64) -> nat {
    if total < target {
        (target - total) as nat
    } else {
        0
    }
}

/// Work bound for a whole frontier: the sum of each pending entry's bound.
spec fn frontier_measure(k: nat, nodes: Seq<Node>, target: u64, f: Seq<usize>) -> nat
    decreases f.len(),
{
    if f.len() == 0 {
        0
    } else {
        pot(k, slack_of(nodes[f[0] as int].total, target)) + frontier_measure(
            k,
            nodes,
            target,
            f.subrange(1, f.len() as int),
        )
    }
}

/// Every entry bound is at least one.
proof fn lemma_pot_pos(k: nat, s: nat)
    ensures
        pot(k, s) >= 1,
{
    if s > 0 {
        assert(k * pot(k, (s - 1) as nat) >= 0) by (nonlinear_arith);
    }
}

/// The entry bound grows with the slack.
proof fn lemma_pot_mono(k: nat, s1: nat, s2: nat)
    requires
        s1 <= s2,
    ensures
        pot(k, s1) <= pot(k, s2),
    decreases s2,
{
    if s1 == s2 {
    } else if s1 == 0 {
        lemma_pot_pos(k, s2);
        assert(k * pot(k, (s2 - 1) as nat) >= 0) by (nonlinear_arith);
    } else {
        lemma_pot_mono(k, (s1 - 1) as nat, (s2 - 1) as nat);
        assert(k * pot(k, (s1 - 1) as nat) <= k * pot(k, (s2 - 1) as nat)) by (nonlinear_arith)
            requires
                pot(k, (s1 - 1) as nat) <= pot(k, (s2 - 1) as nat),
                k >= 0,
        ;
    }
}

/// The frontier bound distributes over concatenation.
proof fn lemma_measure_concat(k: nat, nodes: Seq<Node>, target: u64, a: Seq<usize>, b: Seq<usize>)
    ensures
        frontier_measure(k, nodes, target, a + b) == frontier_measure(k, nodes, target, a)
            + frontier_measure(k, nodes, target, b),
    decreases a.len(),
{
    if a.len() == 0 {
        assert(a + b =~= b);
    } else {
        let ab = a + b;
        assert(ab[0] == a[0]);
        assert(ab.subrange(1, ab.len() as int) =~= a.subrange(1, a.len() as int) + b);
        lemma_measure_concat(k, nodes, target, a.subrange(1, a.len() as int), b);
    }
}

/// Splitting the frontier bound at one position.
proof fn lemma_measure_split_at(k: nat, nodes: Seq<Node>, target: u64, f: Seq<usize>, t: int)
    requires
        0 <= t < f.len(),
    ensures
        frontier_measure(k, nodes, target, f) == frontier_measure(k, nodes, target, f.subrange(0, t))
            + pot(k, slack_of(nodes[f[t] as int].total, target)) + frontier_measure(
            k,
            nodes,
            target,
            f.subrange(t + 1, f.len() as int),
        ),
{
    let a = f.subrange(0, t);
    let m = seq![f[t]];
    let b = f.subrange(t + 1, f.len() as int);
    assert(f =~= (a + m) + b);
    lemma_measure_concat(k, nodes, target, a + m, b);
    lemma_measure_concat(k, nodes, target, a, m);
    let mrest = m.subrange(1, m.len() as int);
    assert(mrest =~= Seq::<usize>::empty());
    assert(frontier_measure(k, nodes, target, mrest) == 0);
    assert(frontier_measure(k, nodes, target, m) == pot(
        k,
        slack_of(nodes[m[0] as int].total, target),
    ) + frontier_measure(k, nodes, target, mrest));
    assert(m[0] == f[t]);
}

/// The frontier bound only reads the nodes the entries point at, so growing
/// the arena beyond them leaves the bound unchanged.
proof fn lemma_measure_same(k: nat, nodes1: Seq<Node>, nodes2: Seq<Node>, target: u64, f: Seq<usize>)
    requires
        nodes1.len() <= nodes2.len(),
        nodes2.subrange(0, nodes1.len() as int) == nodes1,
        forall|t: int| 0 <= t < f.len() ==> ((#[trigger] f[t]) as int) < nodes1.len(),
    ensures
        frontier_measure(k, nodes2, target, f) == frontier_measure(k, nodes1, target, f),
    decreases f.len(),
{
    if f.len() > 0 {
        assert(nodes2.subrange(0, nodes1.len() as int)[f[0] as int] == nodes2[f[0] as int]);
        let rest = f.subrange(1, f.len() as int);
        assert(forall|t: int| 0 <= t < rest.len() ==> #[trigger] rest[t] == f[t + 1]);
        lemma_measure_same(k, nodes1, nodes2, target, rest);
    }
}

/// A frontier whose entry bounds all stay below `m` has its whole bound
/// below its length times `m`.
proof fn lemma_measure_bounded(k: nat, nodes: Seq<Node>, target: u64, f: Seq<usize>, m: nat)
    requires
        forall|t: int| 0 <= t < f.len() ==> pot(
            k,
            slack_of(nodes[(#[trigger] f[t]) as int].total, target),
        ) <= m,
    ensures
        frontier_measure(k, nodes, target, f) <= f.len() * m,
    decreases f.len(),
{
    if f.len() > 0 {
        let rest = f.subrange(1, f.len() as int);
        assert(forall|t: int| 0 <= t < rest.len() ==> #[trigger] rest[t] == f[t + 1]);
        lemma_measure_bounded(k, nodes, target, rest, m);
        assert(m + (f.len() - 1) * m == f.len() * m) by (nonlinear_arith);
    }
}

/// A path built by looking each selected index up in the catalog sums to the
/// selection's sum.
proof fn lemma_items_match_sum(cat: Seq<Item>, sel: Seq<usize>, items: Seq<Item>)
    requires
        sel_ok(cat, sel),
        items.len() == sel.len(),
        forall|t: int| 0 <= t < items.len() ==> #[trigger] items[t] == cat[sel[t] as int],
    ensures
        items_sum(items) == sel_sum(cat, sel),
    decreases sel.len(),
{
    if sel.len() > 0 {
        let sel1 = sel.subrange(1, sel.len() as int);
        let it1 = items.subrange(1, items.len() as int);
        assert(forall|t: int| 0 <= t < sel1.len() ==> #[trigger] sel1[t] == sel[t + 1]);
        assert(forall|t: int| 0 <= t < it1.len() ==> #[trigger] it1[t] == items[t + 1]);
        lemma_items_match_sum(cat, sel1, it1);
    }
}

/// Items all drawn from a positive-valued catalog sum to a non-negative
/// amount, and to a strictly positive one when there is at least one item.
proof fn lemma_items_sum_pos(cat: Seq<Item>, items: Seq<Item>)
    requires
        items_from(cat, items),
        forall|j: int| 0 <= j < cat.len() ==> #[trigger] cat[j].value > 0,
    ensures
        items_sum(items) >= 0,
        items.len() > 0 ==> items_sum(items) >= 1,
    decreases items.len(),
{
    if items.len() > 0 {
        let rest = items.subrange(1, items.len() as int);
        assert(item_in_cat(cat, items[0]));
        let j = choose|j: int| 0 <= j < cat.len() && items[0] == #[trigger] cat[j];
        assert(cat[j].value > 0);
        assert(forall|t: int| 0 <= t < rest.len() ==> #[trigger] rest[t] == items[t + 1]);
        assert forall|t: int| 0 <= t < rest.len() implies item_in_cat(cat, #[trigger] rest[t]) by {
            assert(rest[t] == items[t + 1]);
            assert(item_in_cat(cat, items[t + 1]));
        }
        lemma_items_sum_pos(cat, rest);
    }
}

/// An empty frontier proves exhaustion: nothing covers the target, so no
/// selection of catalog items reaches it; in particular the target is not
/// zero, which the root always covers.
proof fn lemma_empty_frontier(nodes: Seq<Node>, cat: Seq<Item>, target: u64, pend: Seq<usize>)
    requires
        pend.len() == 0,
        reachable(cat, target as int) ==> frontier_covers(nodes, cat, target, pend),
    ensures
        !reachable(cat, target as int),
        target != 0,
{
    if reachable(cat, target as int) {
        let t0 = choose|t: int|
            0 <= t < pend.len() && covers(nodes, cat, target, #[trigger] pend[t]);
        assert(false);
    }
    if target == 0 {
        assert(sel_ok(cat, Seq::<usize>::empty()));
        assert(sel_sum(cat, Seq::<usize>::empty()) == 0);
        assert(reachable(cat, target as int));
    }
}

/// A matched node's reconstructed path is made of catalog items, sums to
/// the target, witnesses reachability, and is empty when the target is zero.
proof fn lemma_match_result(cat: Seq<Item>, sel: Seq<usize>, v: Seq<Item>, target: u64)
    requires
        forall|j: int| 0 <= j < cat.len() ==> #[trigger] cat[j].value > 0,
        sel_ok(cat, sel),
        v.len() == sel.len(),
        forall|t: int| 0 <= t < v.len() ==> #[trigger] v[t] == cat[sel[t] as int],
        sel_sum(cat, sel) == target as int,
    ensures
        items_from(cat, v),
        items_sum(v) == target as int,
        reachable(cat, target as int),
        target == 0 ==> v.len() == 0,
{
    lemma_items_match_sum(cat, sel, v);
    assert forall|t: int| 0 <= t < v.len() implies item_in_cat(cat, #[trigger] v[t]) by {
        assert(v[t] == cat[sel[t] as int]);
    }
    assert(reachable(cat, target as int));
    if target == 0 {
        lemma_items_sum_pos(cat, v);
    }
}

/// Popping a node whose total has passed the target keeps every loop fact:
/// the surviving entries still point into the arena, a covering entry (if
/// any) survives, and the frontier's work bound strictly shrinks.
proof fn lemma_after_prune(
    catlen: nat,
    nodes: Seq<Node>,
    cat: Seq<Item>,
    target: u64,
    pend0: Seq<usize>,
    pend1: Seq<usize>,
    kk: int,
    idx: usize,
)
    requires
        catlen == cat.len(),
        removed_at(pend0, pend1, kk, idx),
        forall|t: int| 0 <= t < pend0.len() ==> ((#[trigger] pend0[t]) as int) < nodes.len(),
        nodes[idx as int].total > target,
        reachable(cat, target as int) ==> frontier_covers(nodes, cat, target, pend0),
    ensures
        forall|t: int| 0 <= t < pend1.len() ==> ((#[trigger] pend1[t]) as int) < nodes.len(),
        reachable(cat, target as int) ==> frontier_covers(nodes, cat, target, pend1),
        frontier_measure(catlen, nodes, target, pend1) < frontier_measure(
            catlen,
            nodes,
            target,
            pend0,
        ),
{
    assert forall|t: int| 0 <= t < pend1.len() implies ((#[trigger] pend1[t]) as int)
        < nodes.len() by {
        if t < kk {
            assert(pend1[t] == pend0[t]);
        } else {
            assert(pend1[t] == pend0[t + 1]);
        }
    }
    lemma_measure_split_at(catlen, nodes, target, pend0, kk);
    lemma_measure_concat(
        catlen,
        nodes,
        target,
        pend0.subrange(0, kk),
        pend0.subrange(kk + 1, pend0.len() as int),
    );
    lemma_pot_pos(catlen, slack_of(nodes[idx as int].total, target));
    if reachable(cat, target as int) {
        let t0 = choose|t: int|
            0 <= t < pend0.len() && covers(nodes, cat, target, #[trigger] pend0[t]);
        if pend0[t0] == idx {
            assert(false);
        }
        assert(t0 != kk);
        let t1: int = if t0 < kk {
            t0
        } else {
            t0 - 1
        };
        assert(pend1[t1] == pend0[t0]);
        assert(covers(nodes, cat, target, pend1[t1]));
        assert(frontier_covers(nodes, cat, target, pend1));
    }
}

/// Expanding a node whose total is still short of the target re-establishes
/// every loop fact over the grown arena and frontier: the new entries point
/// at the new children, the pruning discipline is kept (the parent's total
/// is below the target), a covering entry survives — possibly as one of the
/// new children — and the frontier's work bound strictly shrinks.
proof fn lemma_after_expand(
    catlen: nat,
    nodes0: Seq<Node>,
    nodes2: Seq<Node>,
    cat: Seq<Item>,
    target: u64,
    pend0: Seq<usize>,
    pend1: Seq<usize>,
    pend2: Seq<usize>,
    kk: int,
    idx: usize,
    children: Seq<usize>,
)
    requires
        catlen == cat.len(),
        forall|j: int| 0 <= j < cat.len() ==> #[trigger] cat[j].value > 0,
        removed_at(pend0, pend1, kk, idx),
        forall|t: int| 0 <= t < pend0.len() ==> ((#[trigger] pend0[t]) as int) < nodes0.len(),
        (idx as int) < nodes0.len(),
        nodes0[idx as int].total < target,
        never_expanded_pruned(nodes0, target),
        reachable(cat, target as int) ==> frontier_covers(nodes0, cat, target, pend0),
        nodes2.len() == nodes0.len() + cat.len(),
        nodes2.subrange(0, nodes0.len() as int) == nodes0,
        children.len() == cat.len(),
        forall|k: int| 0 <= k < cat.len() ==> #[trigger] children[k] == nodes0.len() + k,
        forall|k: int| 0 <= k < cat.len() ==> #[trigger] nodes2[nodes0.len() + k] == (Node {
            item: Some(k as usize),
            total: (nodes0[idx as int].total + cat[k].value) as u64,
            parent: Some(idx),
        }),
        forall|j: int| 0 <= j < cat.len() ==> nodes0[idx as int].total + (#[trigger] cat[j].value)
            <= u64::MAX,
        pend2 == pend1 + children,
    ensures
        forall|t: int| 0 <= t < pend2.len() ==> ((#[trigger] pend2[t]) as int) < nodes2.len(),
        never_expanded_pruned(nodes2, target),
        reachable(cat, target as int) ==> frontier_covers(nodes2, cat, target, pend2),
        frontier_measure(catlen, nodes2, target, pend2) < frontier_measure(
            catlen,
            nodes0,
            target,
            pend0,
        ),
{
    let base: int = nodes0.len() as int;
    let total0 = nodes0[idx as int].total;
    assert forall|i: int| 0 <= i < base implies #[trigger] nodes2[i] == nodes0[i] by {
        assert(nodes2.subrange(0, base)[i] == nodes2[i]);
    }
    assert forall|t: int| 0 <= t < pend1.len() implies ((#[trigger] pend1[t]) as int) < base by {
        if t < kk {
            assert(pend1[t] == pend0[t]);
        } else {
            assert(pend1[t] == pend0[t + 1]);
        }
    }
    assert forall|t: int| 0 <= t < pend2.len() implies ((#[trigger] pend2[t]) as int)
        < nodes2.len() by {
        if t < pend1.len() {
            assert(pend2[t] == pend1[t]);
        } else {
            assert(pend2[t] == children[t - pend1.len()]);
        }
    }
    assert forall|i: int| 1 <= i < nodes2.len() implies match (#[trigger] nodes2[i]).parent {
        Some(p) => 0 <= (p as int) < nodes2.len() && nodes2[p as int].total < target,
        None => false,
    } by {
        if i < base {
            assert(nodes2[i] == nodes0[i]);
            match nodes0[i].parent {
                Some(p) => {
                    assert(nodes2[p as int] == nodes0[p as int]);
                },
                None => {},
            }
        } else {
            let kk2 = i - base;
            assert(nodes2[base + kk2] == (Node {
                item: Some(kk2 as usize),
                total: (total0 + cat[kk2].value) as u64,
                parent: Some(idx),
            }));
            assert(nodes2[idx as int] == nodes0[idx as int]);
        }
    }
    if reachable(cat, target as int) {
        let t0 = choose|t: int|
            0 <= t < pend0.len() && covers(nodes0, cat, target, #[trigger] pend0[t]);
        if pend0[t0] == idx {
            let rem: int = target - total0;
            assert(reachable(cat, rem));
            let sel = choose|sel: Seq<usize>|
                sel_ok(cat, sel) && #[trigger] sel_sum(cat, sel) == rem;
            lemma_sel_sum_nonneg(cat, sel);
            assert(sel.len() > 0);
            let j0 = sel[0];
            let rest = sel.subrange(1, sel.len() as int);
            assert(forall|t: int| 0 <= t < rest.len() ==> #[trigger] rest[t] == sel[t + 1]);
            lemma_sel_sum_nonneg(cat, rest);
            assert(sel_sum(cat, sel) == cat[j0 as int].value + sel_sum(cat, rest));
            let c = children[j0 as int];
            assert(c as int == base + j0);
            assert(nodes2[base + j0 as int] == (Node {
                item: Some(j0),
                total: (total0 + cat[j0 as int].value) as u64,
                parent: Some(idx),
            }));
            assert(nodes2[c as int].total == total0 + cat[j0 as int].value);
            assert(nodes2[c as int].total <= target);
            assert(sel_sum(cat, rest) == target - nodes2[c as int].total);
            assert(reachable(cat, target - nodes2[c as int].total));
            assert(covers(nodes2, cat, target, c));
            let tc: int = pend1.len() + j0 as int;
            assert(pend2[tc] == children[j0 as int]);
            assert(frontier_covers(nodes2, cat, target, pend2));
        } else {
            assert(t0 != kk);
            let t1: int = if t0 < kk {
                t0
            } else {
                t0 - 1
            };
            assert(pend1[t1] == pend0[t0]);
            let e = pend0[t0];
            assert(nodes2[e as int] == nodes0[e as int]);
            assert(covers(nodes2, cat, target, e));
            assert(pend2[t1] == pend1[t1]);
            assert(frontier_covers(nodes2, cat, target, pend2));
        }
    }
    let s = slack_of(total0, target);
    assert(s >= 1);
    lemma_measure_split_at(catlen, nodes0, target, pend0, kk);
    lemma_measure_concat(
        catlen,
        nodes0,
        target,
        pend0.subrange(0, kk),
        pend0.subrange(kk + 1, pend0.len() as int),
    );
    lemma_measure_same(catlen, nodes0, nodes2, target, pend1);
    lemma_measure_concat(catlen, nodes2, target, pend1, children);
    assert forall|t: int| 0 <= t < children.len() implies pot(
        catlen,
        slack_of(nodes2[(#[trigger] children[t]) as int].total, target),
    ) <= pot(catlen, (s - 1) as nat) by {
        assert(children[t] == base + t);
        assert(nodes2[base + t] == (Node {
            item: Some(t as usize),
            total: (total0 + cat[t].value) as u64,
            parent: Some(idx),
        }));
        assert(cat[t].value >= 1);
        lemma_pot_mono(catlen, slack_of(nodes2[base + t].total, target), (s - 1) as nat);
    }
    lemma_measure_bounded(catlen, nodes2, target, children, pot(catlen, (s - 1) as nat));
    assert(children.len() == catlen);
    assert(pot(catlen, s) == 1 + catlen * pot(catlen, (s - 1) as nat));
    assert(frontier_measure(catlen, nodes2, target, pend2) < frontier_measure(
        catlen,
        nodes0,
        target,
        pend0,
    ));
}

/// The engine loop over an arena the caller owns. The arena must be fresh
/// (only the root), and the frontier empty; the traversal order is entirely
/// the frontier variant's choice. Beyond the search contract this states the
/// pruning discipline over the final arena — no node was ever expanded from
/// a pruned index — and that a zero target matches at the root with an empty
/// path before anything is expanded.
pub fn search_in<C: Container>(arena: &mut Arena, cat: &Catalog, target: u64, frontier: C) -> (r:
    Option<Vec<Item>>)
    requires
        cat.wf(),
        old(arena)@.len() == 1,
        old(arena)@[0] == (Node { item: None, total: 0u64, parent: None }),
        frontier.pending().len() == 0,
        forall|j: int| 0 <= j < cat@.len() ==> target + (#[trigger] cat@[j].value) <= u64::MAX,
    ensures
        search_post(cat@, target, r),
        arena_wf(final(arena)@, cat@),
        never_expanded_pruned(final(arena)@, target),
        target == 0 ==> final(arena)@.len() == 1 && (r matches Some(v) && v@.len() == 0),
{
    let ghost catlen: nat = cat@.len();
    let mut fr = frontier;
    fr.put(0);
    proof {
        assert(fr.pending() =~= seq![0usize]);
        if reachable(cat@, target as int) {
            assert(fr.pending()[0] == 0usize);
            assert(covers(arena@, cat@, target, fr.pending()[0]));
            assert(frontier_covers(arena@, cat@, target, fr.pending()));
        }
    }
    loop
        invariant
            cat.wf(),
            catlen == cat@.len(),
            forall|j: int| 0 <= j < cat@.len() ==> target + (#[trigger] cat@[j].value) <= u64::MAX,
            arena_wf(arena@, cat@),
            never_expanded_pruned(arena@, target),
            target == 0 ==> arena@.len() == 1,
            forall|t: int| 0 <= t < fr.pending().len() ==> ((#[trigger] fr.pending()[t]) as int)
                < arena@.len(),
            reachable(cat@, target as int) ==> frontier_covers(arena@, cat@, target, fr.pending()),
        decreases frontier_measure(catlen, arena@, target, fr.pending()),
    {
        let ghost pend0 = fr.pending();
        let ghost nodes0 = arena@;
        let popped = fr.get();
        match popped {
            None => {
                proof {
                    lemma_empty_frontier(nodes0, cat@, target, pend0);
                }
                return None;
            },
            Some(idx) => {
                let ghost pend1 = fr.pending();
                let ghost kk: int = choose|k: int| #[trigger] removed_at(pend0, pend1, k, idx);
                proof {
                    assert(removed_at(pend0, pend1, kk, idx));
                    assert((idx as int) < nodes0.len());
                }
                match arena.visit(cat, idx, target) {
                    Ok(v) => {
                        proof {
                            lemma_match_result(cat@, path_items(nodes0, idx as int), v@, target);
                        }
                        return Some(v);
                    },
                    Err(e) => {
                        match e {
                            SearchError::PassedTarget => {
                                proof {
                                    lemma_after_prune(
                                        catlen,
                                        nodes0,
                                        cat@,
                                        target,
                                        pend0,
                                        pend1,
                                        kk,
                                        idx,
                                    );
                                }
                            },
                            SearchError::NoSolutionYet => {
                                proof {
                                    assert forall|j: int| 0 <= j < cat@.len() implies nodes0[idx as int].total
                                        + (#[trigger] cat@[j].value) <= u64::MAX by {}
                                }
                                let children = arena.expand(cat, idx);
                                fr.extend_from(&children);
                                proof {
                                    assert(target != 0);
                                    lemma_after_expand(
                                        catlen,
                                        nodes0,
                                        arena@,
                                        cat@,
                                        target,
                                        pend0,
                                        pend1,
                                        fr.pending(),
                                        kk,
                                        idx,
                                        children@,
                                    );
                                }
                            },
                            SearchError::OrphanNode => {
                                // the arena invariant rules this out: `visit` only
                                // reports it on a corrupted arena
                                proof {
                                    assert(false);
                                }
                            },
                        }
                    },
                }
            },
        }
    }
}

/// Which traversal order the frontier imposes on the one search loop.
#[derive(Clone, Copy, PartialEq, Eq, Structural)]
pub enum Mode {
    BreadthFirst,
    DepthFirst,
}

/// Runs one search over a fresh arena with the given (empty) frontier.
pub fn search_with<C: Container>(cat: &Catalog, target: u64, frontier: C) -> (r: Option<Vec<Item>>)
    requires
        cat.wf(),
        frontier.pending().len() == 0,
        forall|j: int| 0 <= j < cat@.len() ==> target + (#[trigger] cat@[j].value) <= u64::MAX,
    ensures
        search_post(cat@, target, r),
        target == 0 ==> (r matches Some(v) && v@.len() == 0),
{
    let mut arena = Arena::new();
    search_in(&mut arena, cat, target, frontier)
}

/// Breadth-first search: a FIFO frontier explores nodes in creation order.
pub fn bfs(cat: &Catalog, target: u64) -> (r: Option<Vec<Item>>)
    requires
        cat.wf(),
        forall|j: int| 0 <= j < cat@.len() ==> target + (#[trigger] cat@[j].value) <= u64::MAX,
    ensures
        search_post(cat@, target, r),
        target == 0 ==> (r matches Some(v) && v@.len() == 0),
{
    search_with(cat, target, Queue::new())
}

/// Depth-first search: a LIFO frontier explores the newest child first.
pub fn dfs(cat: &Catalog, target: u64) -> (r: Option<Vec<Item>>)
    requires
        cat.wf(),
        forall|j: int| 0 <= j < cat@.len() ==> target + (#[trigger] cat@[j].value) <= u64::MAX,
    ensures
        search_post(cat@, target, r),
        target == 0 ==> (r matches Some(v) && v@.len() == 0),
{
    search_with(cat, target, Stack::new())
}

/// The single entry point: a catalog, a target in minor currency units, and
/// the traversal mode. Selecting the mode is the only thing that changes
/// between depth-first and breadth-first behaviour.
pub fn search(cat: &Catalog, target: u64, mode: Mode) -> (r: Option<Vec<Item>>)
    requires
        cat.wf(),
        forall|j: int| 0 <= j < cat@.len() ==> target + (#[trigger] cat@[j].value) <= u64::MAX,
    ensures
        search_post(cat@, target, r),
        target == 0 ==> (r matches Some(v) && v@.len() == 0),
{
    match mode {
        Mode::BreadthFirst => bfs(cat, target),
        Mode::DepthFirst => dfs(cat, target),
    }
}

/// Breadth-first and depth-first agree on whether a solution exists: any two
/// results that satisfy the search contract for the same catalog and target
/// are both a match or both "no solution", though the returned paths may
/// differ.
pub proof fn lemma_strategy_independence(
    cat: Seq<Item>,
    target: u64,
    r_bfs: Option<Vec<Item>>,
    r_dfs: Option<Vec<Item>>,
)
    requires
        search_post(cat, target, r_bfs),
        search_post(cat, target, r_dfs),
    ensures
        r_bfs is Some <==> r_dfs is Some,
{
}

} // verus!
