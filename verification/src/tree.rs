//! The forest: every process of a snapshot in one node, under the node of its
//! parent, each node with what it and everything below it use together.

use crate::placement::{lemma_every_record_once, lemma_members};
use crate::process::{views, Metrics, Process, ProcessView};
use crate::totals::{lemma_roots_add_up, level_processes, total_of};
use std::collections::HashMap;
use vstd::prelude::*;

verus! {

broadcast use {
    vstd::std_specs::hash::group_hash_axioms,
    vstd::seq::axiom_seq_subrange_decreases,
    vstd::seq::group_seq_axioms,
};

/// A process, what it and its descendants use together, and its children.
#[derive(Debug)]
pub struct TreeNode {
    pub process: Process,
    pub total: Metrics,
    pub children: Vec<TreeNode>,
}

/// The roots of the trees that a snapshot is arranged in.
#[derive(Debug)]
pub struct Forest {
    pub roots: Vec<TreeNode>,
}

/// What a `TreeNode` holds, as plain values.
pub struct Tree {
    pub process: ProcessView,
    pub total: Metrics,
    pub children: Seq<Tree>,
}

impl TreeNode {
    /// The node and all below it, as plain values.
    pub open spec fn tree(&self) -> Tree
        decreases self,
    {
        Tree {
            process: self.process@,
            total: self.total,
            children: Seq::new(
                self.children.len() as nat,
                |k: int|
                    if 0 <= k < self.children.len() {
                        self.children[k].tree()
                    } else {
                        arbitrary()
                    },
            ),
        }
    }
}

impl View for TreeNode {
    type V = Tree;

    open spec fn view(&self) -> Tree {
        self.tree()
    }
}

/// The view of each node of `nodes`.
pub open spec fn trees(nodes: Seq<TreeNode>) -> Seq<Tree> {
    Seq::new(nodes.len(), |k: int| nodes[k]@)
}

impl View for Forest {
    type V = Seq<Tree>;

    open spec fn view(&self) -> Seq<Tree> {
        trees(self.roots@)
    }
}

/// What a node's view is made of.
pub proof fn lemma_node_view(node: TreeNode)
    ensures
        node@.process == node.process@,
        node@.total == node.total,
        node@.children == trees(node.children@),
{
    assert(node@.children =~= trees(node.children@));
}

/// Whether `k` is the place of the first record of `records` with the pid `pid`.
pub open spec fn is_first(records: Seq<ProcessView>, pid: u32, k: int) -> bool {
    &&& 0 <= k < records.len()
    &&& records[k].pid == pid
    &&& forall|m: int| 0 <= m < k ==> records[m].pid != pid
}

/// The place of the first record with the pid `pid`, if there is one.
pub open spec fn index_of(records: Seq<ProcessView>, pid: u32) -> Option<int> {
    if exists|k: int| is_first(records, pid, k) {
        Some(choose|k: int| is_first(records, pid, k))
    } else {
        None
    }
}

/// The place of the record that record `j` names as its parent: none where
/// it names no parent, names itself, or names a pid that no record has.
pub open spec fn parent_index(records: Seq<ProcessView>, j: int) -> Option<int> {
    match records[j].parent {
        Some(pid) => if pid == records[j].pid {
            None
        } else {
            index_of(records, pid)
        },
        None => None,
    }
}

/// Whether going from record `j` to its parent, and on from there, comes to
/// a record without a parent in at most `steps` steps.
pub open spec fn anchored(records: Seq<ProcessView>, j: int, steps: nat) -> bool
    decreases steps,
{
    match parent_index(records, j) {
        None => true,
        Some(p) => steps > 0 && anchored(records, p, (steps - 1) as nat),
    }
}

/// Under which record the record `j` is placed; `None` where it is a root.
///
/// A record is a root where it has no parent among the records, and also
/// where its line of parents never ends, as on a cycle or below one: such a
/// record is kept as a root rather than lost.
pub open spec fn place_of(records: Seq<ProcessView>, j: int) -> Option<int> {
    if anchored(records, j, records.len()) {
        parent_index(records, j)
    } else {
        None
    }
}

/// The places, in rising order, of the records among the first `upto` that
/// are placed at `place`.
pub open spec fn members(records: Seq<ProcessView>, place: Option<int>, upto: nat) -> Seq<int>
    decreases upto,
{
    if upto == 0 {
        Seq::empty()
    } else {
        let before = members(records, place, (upto - 1) as nat);
        if place_of(records, upto - 1) == place {
            before.push(upto - 1)
        } else {
            before
        }
    }
}

/// The sum of the totals of `trees`.
pub open spec fn sum_totals(trees: Seq<Tree>) -> Metrics
    decreases trees.len(),
{
    if trees.len() == 0 {
        Metrics::nothing()
    } else {
        sum_totals(trees.drop_last()).plus(trees.last().total)
    }
}

/// The tree of record `i`: below it the trees of the records placed under
/// it, in the order of the records, to a depth of `depth`; its total is its
/// own metrics plus the totals of its children.
pub open spec fn tree_at(records: Seq<ProcessView>, i: int, depth: nat) -> Tree
    decreases depth,
{
    let below = members(records, Some(i), records.len());
    let children = if depth == 0 {
        Seq::empty()
    } else {
        Seq::new(below.len(), |k: int| tree_at(records, below[k], (depth - 1) as nat))
    };
    Tree { process: records[i], total: records[i].metrics.plus(sum_totals(children)), children }
}

/// The forest of `records`: the trees of the roots, in the order of the records.
///
/// No line of parents that ends is longer than there are records, so the
/// depth given to the roots cuts nothing off.
pub open spec fn forest_of(records: Seq<ProcessView>) -> Seq<Tree> {
    let roots = members(records, None, records.len());
    Seq::new(roots.len(), |k: int| tree_at(records, roots[k], records.len()))
}

/// `place` as a mathematical integer.
spec fn as_place(place: Option<usize>) -> Option<int> {
    match place {
        Some(i) => Some(i as int),
        None => None,
    }
}

/// `places` as mathematical integers.
spec fn as_places(places: Seq<usize>) -> Seq<int> {
    Seq::new(places.len(), |k: int| places[k] as int)
}

proof fn lemma_first_is_index(records: Seq<ProcessView>, pid: u32, k: int)
    requires
        is_first(records, pid, k),
    ensures
        index_of(records, pid) == Some(k),
{
    let found = choose|k: int| is_first(records, pid, k);
    assert(is_first(records, pid, found));
    if found < k {
        assert(records[found].pid != pid);
    }
    if k < found {
        assert(records[k].pid != pid);
    }
}

fn index_by_pid(processes: &Vec<Process>) -> (index: HashMap<u32, usize>)
    ensures
        forall|pid: u32|
            index_of(views(processes@), pid) == (if index@.contains_key(pid) {
                Some(index@[pid] as int)
            } else {
                None
            }),
{
    let ghost records = views(processes@);
    let mut index: HashMap<u32, usize> = HashMap::new();
    let mut i: usize = 0;
    while i < processes.len()
        invariant
            i <= processes.len(),
            records == views(processes@),
            forall|pid: u32| index@.contains_key(pid) ==> is_first(records, pid, index@[pid] as int),
            forall|k: int| 0 <= k < i ==> index@.contains_key(#[trigger] records[k].pid),
        decreases processes.len() - i,
    {
        let pid = processes[i].pid;
        if !index.contains_key(&pid) {
            index.insert(pid, i);
        }
        i += 1;
    }
    assert forall|pid: u32|
        index_of(records, pid) == (if index@.contains_key(pid) {
            Some(index@[pid] as int)
        } else {
            None
        }) by {
        if index@.contains_key(pid) {
            lemma_first_is_index(records, pid, index@[pid] as int);
        } else {
            assert forall|k: int| !is_first(records, pid, k) by {
                if 0 <= k < records.len() {
                    assert(index@.contains_key(records[k].pid));
                }
            }
        }
    }
    index
}

/// Whether `parents` holds, for each record, the place of its parent.
spec fn resolved(records: Seq<ProcessView>, parents: Seq<Option<usize>>) -> bool {
    &&& parents.len() == records.len()
    &&& forall|j: int|
        0 <= j < parents.len() ==> as_place(#[trigger] parents[j]) == parent_index(records, j)
    &&& forall|j: int|
        0 <= j < parents.len() ==> (#[trigger] parents[j] matches Some(p) ==> p < records.len())
}

fn resolve_parents(processes: &Vec<Process>) -> (parents: Vec<Option<usize>>)
    ensures
        resolved(views(processes@), parents@),
{
    let ghost records = views(processes@);
    let index = index_by_pid(processes);
    let mut parents: Vec<Option<usize>> = Vec::new();
    let mut j: usize = 0;
    while j < processes.len()
        invariant
            j <= processes.len(),
            parents.len() == j,
            records == views(processes@),
            forall|pid: u32|
                index_of(records, pid) == (if index@.contains_key(pid) {
                    Some(index@[pid] as int)
                } else {
                    None
                }),
            forall|k: int| 0 <= k < j ==> as_place(#[trigger] parents[k]) == parent_index(records, k),
            forall|k: int|
                0 <= k < j ==> (#[trigger] parents[k] matches Some(p) ==> p < processes.len()),
        decreases processes.len() - j,
    {
        let parent = match processes[j].parent {
            Some(pid) => if pid == processes[j].pid {
                None
            } else {
                match index.get(&pid) {
                    Some(found) => Some(*found),
                    None => None,
                }
            },
            None => None,
        };
        proof {
            assert(as_place(parent) == parent_index(records, j as int));
            if let Some(p) = parent {
                let pid = processes[j as int].parent->0;
                assert(index_of(records, pid) == Some(p as int));
                let found = choose|k: int| is_first(records, pid, k);
                assert(is_first(records, pid, found));
            }
        }
        parents.push(parent);
        j += 1;
    }
    parents
}

fn is_anchored(parents: &Vec<Option<usize>>, Ghost(records): Ghost<Seq<ProcessView>>, j: usize) -> (r:
    bool)
    requires
        resolved(records, parents@),
        j < parents.len(),
    ensures
        r == anchored(records, j as int, records.len()),
{
    let mut at: usize = j;
    let mut left: usize = parents.len();
    loop
        invariant
            resolved(records, parents@),
            at < parents.len(),
            left <= parents.len(),
            anchored(records, j as int, records.len()) == anchored(records, at as int, left as nat),
        decreases left,
    {
        match parents[at] {
            None => {
                return true;
            },
            Some(p) => {
                if left == 0 {
                    return false;
                }
                at = p;
                left -= 1;
            },
        }
    }
}

/// Whether `places` holds, for each record, where it is placed.
spec fn placed(records: Seq<ProcessView>, places: Seq<Option<usize>>) -> bool {
    &&& places.len() == records.len()
    &&& forall|j: int|
        0 <= j < places.len() ==> as_place(#[trigger] places[j]) == place_of(records, j)
    &&& forall|j: int|
        0 <= j < places.len() ==> (#[trigger] places[j] matches Some(p) ==> p < records.len())
}

fn place_all(processes: &Vec<Process>) -> (places: Vec<Option<usize>>)
    ensures
        placed(views(processes@), places@),
{
    let ghost records = views(processes@);
    let parents = resolve_parents(processes);
    let mut places: Vec<Option<usize>> = Vec::new();
    let mut j: usize = 0;
    while j < parents.len()
        invariant
            j <= parents.len(),
            places.len() == j,
            records.len() == parents.len(),
            resolved(records, parents@),
            forall|k: int| 0 <= k < j ==> as_place(#[trigger] places[k]) == place_of(records, k),
            forall|k: int|
                0 <= k < j ==> (#[trigger] places[k] matches Some(p) ==> p < records.len()),
        decreases parents.len() - j,
    {
        let place = if is_anchored(&parents, Ghost(records), j) {
            parents[j]
        } else {
            None
        };
        places.push(place);
        j += 1;
    }
    places
}

/// Whether `roots` and `below` list the records by their places.
spec fn grouped_by_place(
    records: Seq<ProcessView>,
    roots: Seq<usize>,
    below: Seq<Vec<usize>>,
    upto: nat,
) -> bool {
    &&& below.len() == records.len()
    &&& as_places(roots) == members(records, None, upto)
    &&& forall|i: int|
        0 <= i < below.len() ==> as_places((#[trigger] below[i])@) == members(records, Some(i), upto)
}

fn group(processes: &Vec<Process>) -> (r: (Vec<usize>, Vec<Vec<usize>>))
    ensures
        grouped_by_place(views(processes@), r.0@, r.1@, processes.len() as nat),
{
    let ghost records = views(processes@);
    let places = place_all(processes);
    let mut below: Vec<Vec<usize>> = Vec::new();
    let mut i: usize = 0;
    while i < places.len()
        invariant
            i <= places.len(),
            below.len() == i,
            forall|k: int| 0 <= k < i ==> (#[trigger] below[k])@.len() == 0,
        decreases places.len() - i,
    {
        below.push(Vec::new());
        i += 1;
    }
    let mut roots: Vec<usize> = Vec::new();
    let mut j: usize = 0;
    assert(as_places(roots@) =~= members(records, None, 0));
    assert forall|i: int| 0 <= i < below.len() implies as_places((#[trigger] below[i])@)
        == members(records, Some(i), 0) by {
        assert(as_places(below[i]@) =~= members(records, Some(i), 0));
    }
    while j < places.len()
        invariant
            j <= places.len(),
            placed(records, places@),
            grouped_by_place(records, roots@, below@, j as nat),
        decreases places.len() - j,
    {
        let ghost before = below@;
        let ghost roots_before = roots@;
        match places[j] {
            None => {
                roots.push(j);
                assert(as_places(roots@) =~= as_places(roots_before).push(j as int));
            },
            Some(p) => {
                below[p].push(j);
                assert(as_places(below[p as int]@) =~= as_places(before[p as int]@).push(j as int));
            },
        }
        j += 1;
    }
    (roots, below)
}

fn grow(processes: &Vec<Process>, below: &Vec<Vec<usize>>, i: usize, depth: usize) -> (node:
    TreeNode)
    requires
        i < processes.len(),
        below.len() == processes.len(),
        forall|p: int|
            0 <= p < below.len() ==> as_places((#[trigger] below[p])@) == members(
                views(processes@),
                Some(p),
                processes.len() as nat,
            ),
        forall|p: int, k: int|
            0 <= p < below.len() && 0 <= k < below[p].len() ==> (#[trigger] below[p][k])
                < processes.len(),
    ensures
        node@ == tree_at(views(processes@), i as int, depth as nat),
    decreases depth,
{
    let ghost records = views(processes@);
    let ghost listed = members(records, Some(i as int), records.len());
    let mut children: Vec<TreeNode> = Vec::new();
    let mut total = processes[i].metrics;
    if depth > 0 {
        let mut k: usize = 0;
        while k < below[i].len()
            invariant
                k <= below[i as int].len(),
                depth > 0,
                i < processes.len(),
                below.len() == processes.len(),
                records == views(processes@),
                listed == members(records, Some(i as int), records.len()),
                forall|p: int|
                    0 <= p < below.len() ==> as_places((#[trigger] below[p])@) == members(
                        records,
                        Some(p),
                        processes.len() as nat,
                    ),
                forall|p: int, q: int|
                    0 <= p < below.len() && 0 <= q < below[p].len() ==> (#[trigger] below[p][q])
                        < processes.len(),
                children.len() == k,
                forall|q: int|
                    0 <= q < k ==> (#[trigger] children[q])@ == tree_at(
                        records,
                        listed[q],
                        (depth - 1) as nat,
                    ),
                total == processes[i as int].metrics.plus(sum_totals(trees(children@))),
            decreases below[i as int].len() - k,
        {
            let ghost before = trees(children@);
            assert(as_places(below[i as int]@)[k as int] == listed[k as int]);
            let child = grow(processes, below, below[i][k], depth - 1);
            total.accumulate_from(&child.total);
            children.push(child);
            k += 1;
            proof {
                assert(trees(children@).drop_last() =~= before);
                Metrics::lemma_plus_laws(
                    processes[i as int].metrics,
                    sum_totals(before),
                    trees(children@).last().total,
                );
            }
        }
        assert(as_places(below[i as int]@).len() == listed.len());
    }
    let node = TreeNode { process: processes[i].clone(), total, children };
    proof {
        lemma_node_view(node);
        assert(node@.children =~= tree_at(records, i as int, depth as nat).children);
    }
    node
}

impl Forest {
    /// Arranges `processes` in a forest.
    ///
    /// Every process gets one node. A process stands under the first process
    /// whose pid it names as its parent; it is a root where it names none,
    /// names itself, names a pid that no process has, or where its line of
    /// parents never ends. Roots and children keep the order of `processes`,
    /// and every node's total is its own metrics plus those of all below it.
    pub fn new_forest(processes: &Vec<Process>) -> (forest: Forest)
        ensures
            forest@ == forest_of(views(processes@)),
            level_processes(forest@).to_multiset() == views(processes@).to_multiset(),
            sum_totals(forest@) == total_of(views(processes@)),
    {
        let ghost records = views(processes@);
        let (first, below) = group(processes);
        let mut roots: Vec<TreeNode> = Vec::new();
        let mut k: usize = 0;
        assert forall|p: int, q: int| 0 <= p < below.len() && 0 <= q < below[p].len() implies (
        #[trigger] below[p][q]) < processes.len() by {
            lemma_members(records, Some(p), records.len());
            assert(as_places(below[p]@)[q] == below[p][q]);
        }
        assert forall|q: int| 0 <= q < first.len() implies (#[trigger] first[q])
            < processes.len() by {
            lemma_members(records, None, records.len());
            assert(as_places(first@)[q] == first[q]);
        }
        while k < first.len()
            invariant
                k <= first.len(),
                records == views(processes@),
                grouped_by_place(records, first@, below@, processes.len() as nat),
                forall|p: int, q: int|
                    0 <= p < below.len() && 0 <= q < below[p].len() ==> (#[trigger] below[p][q])
                        < processes.len(),
                forall|q: int| 0 <= q < first.len() ==> (#[trigger] first[q]) < processes.len(),
                roots.len() == k,
                forall|q: int|
                    0 <= q < k ==> (#[trigger] roots[q])@ == tree_at(
                        records,
                        first[q] as int,
                        records.len(),
                    ),
            decreases first.len() - k,
        {
            let root = grow(processes, &below, first[k], processes.len());
            roots.push(root);
            k += 1;
        }
        let forest = Forest { roots };
        proof {
            let listed = members(records, None, records.len());
            assert forall|q: int| 0 <= q < listed.len() implies forest@[q] == tree_at(
                records,
                listed[q],
                records.len(),
            ) by {
                assert(as_places(first@)[q] == listed[q]);
            }
            assert(forest@ =~= forest_of(records));
            lemma_every_record_once(records);
            lemma_roots_add_up(records);
        }
        forest
    }
}

/// Whether some node of `tree` holds a process with the pid `pid`.
pub open spec fn tree_holds(tree: Tree, pid: u32) -> bool
    decreases tree,
{
    tree.process.pid == pid || level_holds(tree.children, pid)
}

/// Whether some node of the trees of `level` holds a process with the pid `pid`.
pub open spec fn level_holds(level: Seq<Tree>, pid: u32) -> bool
    decreases level,
{
    level.len() > 0 && (level_holds(level.drop_last(), pid) || tree_holds(level.last(), pid))
}

fn holds_in(nodes: &Vec<TreeNode>, pid: u32) -> (r: bool)
    ensures
        r == level_holds(trees(nodes@), pid),
    decreases nodes,
{
    let mut k: usize = 0;
    assert(trees(nodes@).take(0) =~= Seq::<Tree>::empty());
    while k < nodes.len()
        invariant
            k <= nodes.len(),
            !level_holds(trees(nodes@).take(k as int), pid),
        decreases nodes.len() - k,
    {
        proof {
            lemma_node_view(nodes[k as int]);
            let level = trees(nodes@).take(k + 1);
            assert(level.drop_last() =~= trees(nodes@).take(k as int));
            assert(level.last() == nodes[k as int]@);
            assert(tree_holds(nodes[k as int]@, pid) == (nodes[k as int].process.pid == pid
                || level_holds(trees(nodes[k as int].children@), pid)));
            assert(level_holds(level, pid) == tree_holds(nodes[k as int]@, pid));
        }
        if nodes[k].process.pid == pid || holds_in(&nodes[k].children, pid) {
            proof {
                lemma_holds_grows(trees(nodes@), k + 1, pid);
            }
            return true;
        }
        k += 1;
    }
    assert(trees(nodes@).take(k as int) =~= trees(nodes@));
    false
}

/// What the first `upto` trees of a level hold, the level holds.
proof fn lemma_holds_grows(level: Seq<Tree>, upto: int, pid: u32)
    requires
        0 <= upto <= level.len(),
        level_holds(level.take(upto), pid),
    ensures
        level_holds(level, pid),
    decreases level.len() - upto,
{
    if upto < level.len() {
        assert(level.take(upto + 1).drop_last() =~= level.take(upto));
        lemma_holds_grows(level, upto + 1, pid);
    } else {
        assert(level.take(upto) =~= level);
    }
}

impl Forest {
    /// Whether some node of this forest holds a process with the pid `pid`.
    pub fn contains(&self, pid: u32) -> (r: bool)
        ensures
            r == level_holds(self@, pid),
    {
        holds_in(&self.roots, pid)
    }
}

} // verus!
