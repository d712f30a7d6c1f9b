//! Ordering a forest: the roots, and the children of every node, by one key.

use crate::process::{precedes, ProcessView, SortBy};
use crate::totals::{level_processes, tree_processes};
use crate::tree::{lemma_node_view, trees, Forest, Tree, TreeNode};
use vstd::prelude::*;

verus! {

broadcast use {vstd::seq::axiom_seq_subrange_decreases, vstd::seq::group_seq_axioms};

/// How many trees at the head of `sorted` stand before `tree`, one after another.
pub open spec fn slot(sorted: Seq<Tree>, tree: Tree, key: SortBy) -> int
    decreases sorted.len(),
{
    if sorted.len() == 0 || !precedes(sorted[0].process, tree.process, key) {
        0
    } else {
        1 + slot(sorted.drop_first(), tree, key)
    }
}

/// `sorted` with `tree` put in behind the trees at its head that stand before `tree`.
pub open spec fn insert_ordered(sorted: Seq<Tree>, tree: Tree, key: SortBy) -> Seq<Tree> {
    sorted.insert(slot(sorted, tree, key), tree)
}

/// `tree` with the children of every node in it ordered by `key`.
pub open spec fn sort_tree(tree: Tree, key: SortBy) -> Tree
    decreases tree,
{
    Tree { process: tree.process, total: tree.total, children: sort_trees(tree.children, key) }
}

/// The trees of `level`, each ordered within, in the order of `key`: the
/// last tree alone, then one after another of those before it put in where
/// it belongs, so that of trees that stand level the one that came first stays first.
pub open spec fn sort_trees(level: Seq<Tree>, key: SortBy) -> Seq<Tree>
    decreases level,
{
    if level.len() == 0 {
        Seq::empty()
    } else {
        insert_ordered(sort_trees(level.drop_first(), key), sort_tree(level.first(), key), key)
    }
}

proof fn lemma_slot(sorted: Seq<Tree>, tree: Tree, key: SortBy, at: int)
    requires
        0 <= at <= sorted.len(),
        forall|q: int| 0 <= q < at ==> precedes(#[trigger] sorted[q].process, tree.process, key),
        at < sorted.len() ==> !precedes(sorted[at].process, tree.process, key),
    ensures
        slot(sorted, tree, key) == at,
    decreases at,
{
    if at > 0 {
        assert(precedes(sorted[0].process, tree.process, key));
        let rest = sorted.drop_first();
        assert forall|q: int| 0 <= q < at - 1 implies precedes(
            #[trigger] rest[q].process,
            tree.process,
            key,
        ) by {
            assert(rest[q] == sorted[q + 1]);
        }
        lemma_slot(rest, tree, key, at - 1);
    }
}

fn insert_node(sorted: &mut Vec<TreeNode>, node: TreeNode, key: SortBy)
    ensures
        trees(final(sorted)@) == insert_ordered(trees(old(sorted)@), node@, key),
{
    let mut at: usize = 0;
    while at < sorted.len() && sorted[at].process.stands_before(&node.process, key)
        invariant
            at <= sorted.len(),
            forall|q: int|
                0 <= q < at ==> precedes(#[trigger] trees(sorted@)[q].process, node@.process, key),
        decreases sorted.len() - at,
    {
        proof {
            lemma_node_view(sorted[at as int]);
            lemma_node_view(node);
        }
        at += 1;
    }
    proof {
        lemma_node_view(node);
        if at < sorted.len() {
            lemma_node_view(sorted[at as int]);
        }
        lemma_slot(trees(sorted@), node@, key, at as int);
    }
    let ghost before = sorted@;
    sorted.insert(at, node);
    assert(trees(sorted@) =~= trees(before).insert(at as int, node@));
}

fn sort_nodes(nodes: Vec<TreeNode>, key: SortBy) -> (r: Vec<TreeNode>)
    ensures
        trees(r@) == sort_trees(trees(nodes@), key),
    decreases nodes,
{
    let ghost level = trees(nodes@);
    let mut rest = nodes;
    let mut sorted: Vec<TreeNode> = Vec::new();
    assert(level.skip(level.len() as int) =~= Seq::<Tree>::empty());
    while rest.len() > 0
        invariant
            rest.len() <= nodes.len(),
            rest@ == nodes@.take(rest.len() as int),
            level == trees(nodes@),
            trees(sorted@) == sort_trees(level.skip(rest.len() as int), key),
        decreases rest.len(),
    {
        let ghost tail = level.skip(rest.len() as int);
        let node = rest.pop().unwrap();
        assert(node == nodes@[rest.len() as int]);
        let node = node.sorted(key);
        proof {
            let now = level.skip(rest.len() as int);
            assert(now.drop_first() =~= tail);
            assert(now.first() == nodes@[rest.len() as int]@);
            assert(rest@ =~= nodes@.take(rest.len() as int));
        }
        insert_node(&mut sorted, node, key);
    }
    assert(level.skip(0) =~= level);
    sorted
}

impl TreeNode {
    /// This node with the children of every node in it ordered by `key`.
    pub fn sorted(self, key: SortBy) -> (r: TreeNode)
        ensures
            r@ == sort_tree(self@, key),
        decreases self,
    {
        proof {
            lemma_node_view(self);
        }
        let TreeNode { process, total, children } = self;
        let children = sort_nodes(children, key);
        let r = TreeNode { process, total, children };
        proof {
            lemma_node_view(r);
        }
        r
    }
}

/// `forest` with its roots, and the children of every node, ordered by `key`.
pub open spec fn sort_forest(forest: Seq<Tree>, key: SortBy) -> Seq<Tree> {
    sort_trees(forest, key)
}

impl Forest {
    /// Orders the roots, and the children of every node, by `key`.
    ///
    /// The roots are the same as before, in the order of `key`; where the
    /// key is the processor use and some readings are numbers and others
    /// not, the order is the one that `sort_trees` describes.
    pub fn sort_by(&mut self, key: SortBy)
        ensures
            final(self)@ == sort_forest(old(self)@, key),
            heads(final(self)@).to_multiset() == heads(old(self)@).to_multiset(),
            level_processes(final(self)@).to_multiset() == level_processes(
                old(self)@,
            ).to_multiset(),
            key != SortBy::Cpu ==> ordered(final(self)@, key),
    {
        proof {
            lemma_sort_trees(self@, key, true);
            lemma_sort_trees_keep_processes(self@, key);
        }
        let mut roots: Vec<TreeNode> = Vec::new();
        std::mem::swap(&mut roots, &mut self.roots);
        self.roots = sort_nodes(roots, key);
    }
}

/// The processes at the roots of the trees of `level`.
pub open spec fn heads(level: Seq<Tree>) -> Seq<ProcessView> {
    Seq::new(level.len(), |k: int| level[k].process)
}

/// Whether no tree of `level` stands before a tree that comes earlier in `level`.
pub open spec fn ordered(level: Seq<Tree>, key: SortBy) -> bool {
    forall|i: int, j: int|
        0 <= i < j < level.len() ==> !precedes(
            (#[trigger] level[j]).process,
            (#[trigger] level[i]).process,
            key,
        )
}

/// Whether the processor readings at the roots of `level` are numbers, all
/// of them, where `defined` holds, and none of them where it does not.
pub open spec fn readings_alike(level: Seq<Tree>, defined: bool) -> bool {
    forall|k: int| 0 <= k < level.len() ==> ((#[trigger] level[k]).process.metrics.cpu is Some) == defined
}

/// The trees at the head of `sorted` that `slot` counts stand before
/// `tree`, and the tree behind them does not.
pub proof fn lemma_slot_bounds(sorted: Seq<Tree>, tree: Tree, key: SortBy)
    ensures
        0 <= slot(sorted, tree, key) <= sorted.len(),
        forall|q: int|
            0 <= q < slot(sorted, tree, key) ==> precedes(
                (#[trigger] sorted[q]).process,
                tree.process,
                key,
            ),
        slot(sorted, tree, key) < sorted.len() ==> !precedes(
            sorted[slot(sorted, tree, key)].process,
            tree.process,
            key,
        ),
    decreases sorted.len(),
{
    if sorted.len() > 0 && precedes(sorted[0].process, tree.process, key) {
        let rest = sorted.drop_first();
        lemma_slot_bounds(rest, tree, key);
        assert forall|q: int| 0 <= q < slot(sorted, tree, key) implies precedes(
            (#[trigger] sorted[q]).process,
            tree.process,
            key,
        ) by {
            if q > 0 {
                assert(sorted[q] == rest[q - 1]);
            }
        }
        if slot(sorted, tree, key) < sorted.len() {
            assert(sorted[slot(sorted, tree, key)] == rest[slot(rest, tree, key)]);
        }
    }
}

/// Ordering a level keeps the processes at its roots, each as often as it
/// was there, and puts them in the order of `key`: no tree of the result
/// stands before one that comes earlier. The second holds by pid and by
/// memory always, and by processor where the readings at the roots are all
/// numbers or all none.
pub proof fn lemma_sort_trees(level: Seq<Tree>, key: SortBy, defined: bool)
    ensures
        sort_trees(level, key).len() == level.len(),
        heads(sort_trees(level, key)).to_multiset() == heads(level).to_multiset(),
        readings_alike(level, defined) ==> readings_alike(sort_trees(level, key), defined),
        key != SortBy::Cpu || readings_alike(level, defined) ==> ordered(
            sort_trees(level, key),
            key,
        ),
    decreases level.len(),
{
    broadcast use vstd::seq_lib::group_to_multiset_ensures;

    if level.len() == 0 {
        assert(heads(sort_trees(level, key)) =~= heads(level));
    } else {
        let rest = level.drop_first();
        let first = sort_tree(level.first(), key);
        let before = sort_trees(rest, key);
        let at = slot(before, first, key);
        let after = sort_trees(level, key);
        lemma_sort_trees(rest, key, defined);
        lemma_slot_bounds(before, first, key);
        assert(after == before.insert(at, first));
        assert(heads(after) =~= heads(before).insert(at, first.process));
        assert(heads(level) =~= heads(rest).insert(0, level.first().process));
        if readings_alike(level, defined) {
            assert forall|k: int| 0 <= k < rest.len() implies ((#[trigger] rest[k]).process.metrics.cpu is Some)
                == defined by {
                assert(rest[k] == level[k + 1]);
            }
            assert((level[0].process.metrics.cpu is Some) == defined);
            assert forall|k: int| 0 <= k < after.len() implies ((#[trigger] after[k]).process.metrics.cpu is Some)
                == defined by {
                if k < at {
                    assert(after[k] == before[k]);
                } else if k > at {
                    assert(after[k] == before[k - 1]);
                }
            }
        }
        if key != SortBy::Cpu || readings_alike(level, defined) {
            assert forall|i: int, j: int| 0 <= i < j < after.len() implies !precedes(
                (#[trigger] after[j]).process,
                (#[trigger] after[i]).process,
                key,
            ) by {
                let a = if i < at {
                    before[i]
                } else if i == at {
                    first
                } else {
                    before[i - 1]
                };
                let b = if j < at {
                    before[j]
                } else if j == at {
                    first
                } else {
                    before[j - 1]
                };
                assert(after[i] == a && after[j] == b);
                if key == SortBy::Cpu {
                    assert((a.process.metrics.cpu is Some) == defined);
                    assert((b.process.metrics.cpu is Some) == defined);
                    assert((first.process.metrics.cpu is Some) == defined);
                }
                if i == at {
                    assert(!precedes(before[at].process, first.process, key));
                    if j - 1 > at {
                        assert(!precedes(before[j - 1].process, before[at].process, key));
                        if key == SortBy::Cpu {
                            assert((before[at].process.metrics.cpu is Some) == defined);
                        }
                    }
                } else if j == at {
                    assert(precedes(before[i].process, first.process, key));
                }
            }
        }
    }
}

/// Ordering a tree keeps the process and the total of its root.
pub proof fn lemma_sort_tree_keeps_root(tree: Tree, key: SortBy)
    ensures
        sort_tree(tree, key).process == tree.process,
        sort_tree(tree, key).total == tree.total,
        sort_tree(tree, key).children.len() == tree.children.len(),
{
    lemma_sort_trees(tree.children, key, true);
}

/// The processes of one level after another are those of the first and then those of the second.
pub proof fn lemma_level_processes_concat(first: Seq<Tree>, second: Seq<Tree>)
    ensures
        level_processes(first + second) == level_processes(first) + level_processes(second),
    decreases second.len(),
{
    if second.len() == 0 {
        assert(first + second =~= first);
        assert(level_processes(first + second) =~= level_processes(first) + level_processes(
            second,
        ));
    } else {
        assert((first + second).drop_last() =~= first + second.drop_last());
        assert((first + second).last() == second.last());
        lemma_level_processes_concat(first, second.drop_last());
        assert(level_processes(first + second) =~= level_processes(first) + level_processes(
            second,
        ));
    }
}

/// Ordering a tree loses no process of it and adds none.
pub proof fn lemma_sort_tree_keeps_processes(tree: Tree, key: SortBy)
    ensures
        tree_processes(sort_tree(tree, key)).to_multiset() == tree_processes(tree).to_multiset(),
    decreases tree,
{
    lemma_sort_trees_keep_processes(tree.children, key);
    let own = seq![tree.process];
    vstd::seq_lib::lemma_multiset_commutative(own, level_processes(tree.children));
    vstd::seq_lib::lemma_multiset_commutative(
        own,
        level_processes(sort_trees(tree.children, key)),
    );
}

/// Ordering a level loses no process of its trees and adds none.
pub proof fn lemma_sort_trees_keep_processes(level: Seq<Tree>, key: SortBy)
    ensures
        level_processes(sort_trees(level, key)).to_multiset() == level_processes(
            level,
        ).to_multiset(),
    decreases level,
{
    if level.len() > 0 {
        let rest = level.drop_first();
        let first = sort_tree(level.first(), key);
        let before = sort_trees(rest, key);
        let at = slot(before, first, key);
        lemma_sort_trees_keep_processes(rest, key);
        lemma_sort_tree_keeps_processes(level.first(), key);
        lemma_slot_bounds(before, first, key);
        let head = before.take(at);
        let tail = before.skip(at);
        let one = seq![first];
        assert(before =~= head + tail);
        assert(sort_trees(level, key) =~= head + one + tail);
        assert(level =~= seq![level.first()] + rest);
        assert(level_processes(one) =~= tree_processes(first)) by {
            assert(one.drop_last() =~= Seq::<Tree>::empty());
            assert(level_processes(one.drop_last()) =~= Seq::<ProcessView>::empty());
        }
        assert(level_processes(seq![level.first()]) =~= tree_processes(level.first())) by {
            assert(seq![level.first()].drop_last() =~= Seq::<Tree>::empty());
            assert(level_processes(seq![level.first()].drop_last()) =~= Seq::<
                ProcessView,
            >::empty());
        }
        lemma_level_processes_concat(head, tail);
        lemma_level_processes_concat(head, one);
        lemma_level_processes_concat(head + one, tail);
        lemma_level_processes_concat(seq![level.first()], rest);
        let a = level_processes(head);
        let b = tree_processes(first);
        let c = level_processes(tail);
        vstd::seq_lib::lemma_multiset_commutative(a, c);
        vstd::seq_lib::lemma_multiset_commutative(a, b);
        vstd::seq_lib::lemma_multiset_commutative(a + b, c);
        vstd::seq_lib::lemma_multiset_commutative(
            tree_processes(level.first()),
            level_processes(rest),
        );
        assert(level_processes(sort_trees(level, key)).to_multiset() =~= level_processes(
            level,
        ).to_multiset());
    }
}

} // verus!
