//! What the totals of a forest add up to.

use crate::placement::{
    at_places, forest_order, lemma_every_record_once, lemma_without_last_place, lists_each_once,
};
use crate::process::{Metrics, ProcessView};
use crate::tree::{forest_of, members, sum_totals, tree_at, Tree};
use vstd::prelude::*;

verus! {

broadcast use {vstd::seq::axiom_seq_subrange_decreases, vstd::seq::group_seq_axioms};

/// The processes of `tree`: that of the root, then those of its children's trees.
pub open spec fn tree_processes(tree: Tree) -> Seq<ProcessView>
    decreases tree,
{
    seq![tree.process] + level_processes(tree.children)
}

/// The processes of the trees of `level`, one tree after the other.
pub open spec fn level_processes(level: Seq<Tree>) -> Seq<ProcessView>
    decreases level,
{
    if level.len() == 0 {
        Seq::empty()
    } else {
        level_processes(level.drop_last()) + tree_processes(level.last())
    }
}

/// The metrics of `processes` added up.
pub open spec fn total_of(processes: Seq<ProcessView>) -> Metrics
    decreases processes.len(),
{
    if processes.len() == 0 {
        Metrics::nothing()
    } else {
        total_of(processes.drop_last()).plus(processes.last().metrics)
    }
}

/// The memory of `processes` added up, without a bound.
pub open spec fn ram_sum(processes: Seq<ProcessView>) -> nat
    decreases processes.len(),
{
    if processes.len() == 0 {
        0
    } else {
        ram_sum(processes.drop_last()) + processes.last().metrics.ram as nat
    }
}

/// The processor readings of `processes` added up, without a bound; `None`
/// where one of them is no number.
pub open spec fn cpu_sum(processes: Seq<ProcessView>) -> Option<nat>
    decreases processes.len(),
{
    if processes.len() == 0 {
        Some(0)
    } else {
        match (cpu_sum(processes.drop_last()), processes.last().metrics.cpu) {
            (Some(sum), Some(cpu)) => Some(sum + cpu as nat),
            _ => None,
        }
    }
}

/// `sum`, or the largest `u64` where `sum` is larger.
pub open spec fn capped(sum: nat) -> u64 {
    if sum > u64::MAX {
        u64::MAX
    } else {
        sum as u64
    }
}

/// Whether the total of every node of `tree` is the node's own metrics plus
/// the totals of its children.
pub open spec fn summed(tree: Tree) -> bool
    decreases tree,
{
    &&& tree.total == tree.process.metrics.plus(sum_totals(tree.children))
    &&& forall|k: int| 0 <= k < tree.children.len() ==> summed(#[trigger] tree.children[k])
}

/// The total of one row after another is the total of the first plus the total of the second.
pub proof fn lemma_total_of_concat(first: Seq<ProcessView>, second: Seq<ProcessView>)
    ensures
        total_of(first + second) == total_of(first).plus(total_of(second)),
    decreases second.len(),
{
    if second.len() == 0 {
        assert(first + second =~= first);
    } else {
        assert((first + second).drop_last() =~= first + second.drop_last());
        lemma_total_of_concat(first, second.drop_last());
        Metrics::lemma_plus_laws(
            total_of(first),
            total_of(second.drop_last()),
            second.last().metrics,
        );
    }
}

/// The total is the plain sum of the readings, stopped at the largest
/// `u64`: of the memory always, of the processor readings where all are numbers.
pub proof fn lemma_total_of_is_sum(processes: Seq<ProcessView>)
    ensures
        total_of(processes).ram == capped(ram_sum(processes)),
        total_of(processes).cpu == match cpu_sum(processes) {
            Some(sum) => Some(capped(sum)),
            None => None,
        },
    decreases processes.len(),
{
    if processes.len() > 0 {
        lemma_total_of_is_sum(processes.drop_last());
    }
}

/// In a tree whose totals are summed node by node, the total of the root
/// is the total of all processes of the tree; so it is with a level of such trees.
pub proof fn lemma_summed_total(tree: Tree)
    requires
        summed(tree),
    ensures
        tree.total == total_of(tree_processes(tree)),
        sum_totals(tree.children) == total_of(level_processes(tree.children)),
    decreases tree,
{
    lemma_summed_level(tree.children);
    let own = seq![tree.process];
    assert(total_of(own) == tree.process.metrics) by {
        assert(own.drop_last() =~= Seq::<ProcessView>::empty());
        assert(total_of(own.drop_last()) == Metrics::nothing());
        Metrics::lemma_plus_laws(tree.process.metrics, Metrics::nothing(), Metrics::nothing());
    }
    lemma_total_of_concat(own, level_processes(tree.children));
}

/// The totals of a level of summed trees add up to the total of all their processes.
pub proof fn lemma_summed_level(level: Seq<Tree>)
    requires
        forall|k: int| 0 <= k < level.len() ==> summed(#[trigger] level[k]),
    ensures
        sum_totals(level) == total_of(level_processes(level)),
    decreases level,
{
    if level.len() > 0 {
        let before = level.drop_last();
        assert forall|k: int| 0 <= k < before.len() implies summed(#[trigger] before[k]) by {
            assert(before[k] == level[k]);
        }
        lemma_summed_level(before);
        lemma_summed_total(level.last());
        lemma_total_of_concat(level_processes(before), tree_processes(level.last()));
    }
}

/// Every tree that the forest of `records` is made of is summed node by node.
pub proof fn lemma_tree_at_summed(records: Seq<ProcessView>, i: int, depth: nat)
    ensures
        summed(tree_at(records, i, depth)),
    decreases depth,
{
    let tree = tree_at(records, i, depth);
    if depth > 0 {
        let below = members(records, Some(i), records.len());
        assert forall|k: int| 0 <= k < tree.children.len() implies summed(
            #[trigger] tree.children[k],
        ) by {
            lemma_tree_at_summed(records, below[k], (depth - 1) as nat);
        }
    }
}

/// The total of every root of the forest of `records` is what the root and
/// all processes below it use together: the plain sum of their readings,
/// stopped at the largest `u64`, whatever the shape of the tree. And so it is
/// with every node further down.
pub proof fn lemma_forest_totals(records: Seq<ProcessView>, k: int)
    requires
        0 <= k < forest_of(records).len(),
    ensures
        summed(forest_of(records)[k]),
        forest_of(records)[k].total == total_of(tree_processes(forest_of(records)[k])),
        forest_of(records)[k].total.ram == capped(ram_sum(tree_processes(forest_of(records)[k]))),
        forest_of(records)[k].total.cpu == match cpu_sum(tree_processes(forest_of(records)[k])) {
            Some(sum) => Some(capped(sum)),
            None => None,
        },
{
    let roots = members(records, None, records.len());
    lemma_tree_at_summed(records, roots[k], records.len());
    lemma_summed_total(forest_of(records)[k]);
    lemma_total_of_is_sum(tree_processes(forest_of(records)[k]));
}

/// A row of processes with one more in its midst adds up to the row without it plus the one.
proof fn lemma_total_of_insert(first: Seq<ProcessView>, one: ProcessView, second: Seq<ProcessView>)
    ensures
        total_of(first + seq![one] + second) == total_of(first + second).plus(one.metrics),
{
    let own = seq![one];
    assert(total_of(own) == one.metrics) by {
        assert(own.drop_last() =~= Seq::<ProcessView>::empty());
        assert(total_of(own.drop_last()) == Metrics::nothing());
        Metrics::lemma_plus_laws(one.metrics, Metrics::nothing(), Metrics::nothing());
    }
    lemma_total_of_concat(first, own);
    lemma_total_of_concat(first + own, second);
    lemma_total_of_concat(first, second);
    Metrics::lemma_plus_laws(total_of(first), one.metrics, total_of(second));
    Metrics::lemma_plus_laws(total_of(first), total_of(second), one.metrics);
    Metrics::lemma_plus_laws(one.metrics, total_of(second), Metrics::nothing());
}

/// In whatever order the places of the records are listed, each once, the
/// records at the listed places add up to the same as the records in their own order.
pub proof fn lemma_total_at_places(records: Seq<ProcessView>, places: Seq<int>)
    requires
        lists_each_once(places, records.len()),
    ensures
        total_of(at_places(records, places)) == total_of(records),
    decreases records.len(),
{
    if records.len() == 0 {
        if places.len() > 0 {
            assert(0 <= places[0] < records.len());
        }
        assert(at_places(records, places) =~= records);
    } else {
        let at = lemma_without_last_place(records, places);
        let fewer = records.drop_last();
        let rest = places.remove(at);
        lemma_total_at_places(fewer, rest);
        let first = at_places(fewer, rest).take(at);
        let second = at_places(fewer, rest).skip(at);
        assert(at_places(fewer, rest) =~= first + second);
        assert(at_places(records, places) =~= first + seq![records.last()] + second);
        lemma_total_of_insert(first, records.last(), second);
    }
}

/// The totals of the roots of the forest of `records` add up to what all
/// the records use together: nothing is counted twice, nothing is left out,
/// however the records hang together.
pub proof fn lemma_roots_add_up(records: Seq<ProcessView>)
    ensures
        sum_totals(forest_of(records)) == total_of(records),
{
    let forest = forest_of(records);
    let roots = members(records, None, records.len());
    assert forall|k: int| 0 <= k < forest.len() implies summed(#[trigger] forest[k]) by {
        lemma_tree_at_summed(records, roots[k], records.len());
    }
    lemma_summed_level(forest);
    lemma_every_record_once(records);
    lemma_total_at_places(records, forest_order(records));
}

} // verus!
