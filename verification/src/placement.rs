//! Where the records of a snapshot stand in their forest: every record in
//! one node and in no second one.

use crate::process::ProcessView;
use crate::totals::{level_processes, tree_processes};
use crate::tree::{
    anchored, forest_of, index_of, is_first, level_holds, members, parent_index, place_of,
    tree_at, tree_holds, Tree,
};
use vstd::prelude::*;

verus! {

broadcast use {vstd::seq::axiom_seq_subrange_decreases, vstd::seq::group_seq_axioms};

/// The places of the records in the tree of record `i` to the depth
/// `depth`: `i`, then the places in the trees of the records under it.
pub open spec fn span(records: Seq<ProcessView>, i: int, depth: nat) -> Seq<int>
    decreases depth, 0nat,
{
    if depth == 0 {
        seq![i]
    } else {
        seq![i] + level_span(
            records,
            members(records, Some(i), records.len()),
            (depth - 1) as nat,
        )
    }
}

/// The places of the records in the trees, to the depth `depth`, of the
/// records at the places `list`, one tree after the other.
pub open spec fn level_span(records: Seq<ProcessView>, list: Seq<int>, depth: nat) -> Seq<int>
    decreases depth, list.len(),
{
    if list.len() == 0 {
        Seq::empty()
    } else {
        level_span(records, list.drop_last(), depth) + span(records, list.last(), depth)
    }
}

/// The places of the records in the order of the nodes of their forest:
/// every root followed by all that is below it.
pub open spec fn forest_order(records: Seq<ProcessView>) -> Seq<int> {
    level_span(records, members(records, None, records.len()), records.len())
}

/// How many steps lead from record `j` up to a record without a parent,
/// counting no more than `steps`.
pub open spec fn steps_up(records: Seq<ProcessView>, j: int, steps: nat) -> nat
    decreases steps,
{
    match parent_index(records, j) {
        None => 0,
        Some(p) => if steps == 0 {
            0
        } else {
            1 + steps_up(records, p, (steps - 1) as nat)
        },
    }
}

/// How deep record `j` stands in the forest: 0 for a root.
pub open spec fn height(records: Seq<ProcessView>, j: int) -> nat {
    if anchored(records, j, records.len()) {
        steps_up(records, j, records.len())
    } else {
        0
    }
}

/// The place of the record that stands `up` levels above record `j`.
pub open spec fn ancestor(records: Seq<ProcessView>, j: int, up: nat) -> Option<int>
    decreases up,
{
    if up == 0 {
        Some(j)
    } else {
        match ancestor(records, j, (up - 1) as nat) {
            Some(a) => place_of(records, a),
            None => None,
        }
    }
}

/// A parent is one of the records, and another one than the child.
pub proof fn lemma_parent_in_range(records: Seq<ProcessView>, j: int)
    requires
        0 <= j < records.len(),
    ensures
        parent_index(records, j) matches Some(p) ==> 0 <= p < records.len() && p != j,
        place_of(records, j) matches Some(p) ==> 0 <= p < records.len() && p != j
            && parent_index(records, j) == Some(p) && anchored(records, j, records.len()),
{
    if let Some(pid) = records[j].parent {
        if pid != records[j].pid {
            if let Some(p) = index_of(records, pid) {
                assert(is_first(records, pid, p));
            }
        }
    }
}

/// A line of parents that ends within `steps` steps ends within any more,
/// and is as long whichever bound it is counted to.
pub proof fn lemma_anchored_more(records: Seq<ProcessView>, j: int, steps: nat, more: nat)
    requires
        anchored(records, j, steps),
        steps <= more,
    ensures
        anchored(records, j, more),
        steps_up(records, j, more) == steps_up(records, j, steps),
        steps_up(records, j, steps) <= steps,
    decreases steps,
{
    if let Some(p) = parent_index(records, j) {
        lemma_anchored_more(records, p, (steps - 1) as nat, (more - 1) as nat);
    }
}

/// A root stands at height 0, every other record one higher than the
/// record it is placed under, and none higher than there are records.
pub proof fn lemma_height(records: Seq<ProcessView>, j: int)
    requires
        0 <= j < records.len(),
    ensures
        height(records, j) <= records.len(),
        match place_of(records, j) {
            Some(p) => height(records, j) == height(records, p) + 1,
            None => height(records, j) == 0,
        },
{
    let n = records.len();
    if anchored(records, j, n) {
        lemma_anchored_more(records, j, n, n);
        if let Some(p) = parent_index(records, j) {
            lemma_anchored_more(records, p, (n - 1) as nat, n);
        }
    }
}

/// `members` lists exactly the records, among the first `upto`, that are
/// placed at `place`, each once and in rising order.
pub proof fn lemma_members(records: Seq<ProcessView>, place: Option<int>, upto: nat)
    ensures
        forall|k: int|
            0 <= k < members(records, place, upto).len() ==> 0 <= (#[trigger] members(
                records,
                place,
                upto,
            )[k]) < upto && place_of(records, members(records, place, upto)[k]) == place,
        forall|k: int, l: int|
            0 <= k < l < members(records, place, upto).len() ==> (#[trigger] members(
                records,
                place,
                upto,
            )[k]) < (#[trigger] members(records, place, upto)[l]),
        forall|j: int|
            0 <= j < upto && place_of(records, j) == place ==> #[trigger] members(
                records,
                place,
                upto,
            ).contains(j),
    decreases upto,
{
    if upto > 0 {
        let before = members(records, place, (upto - 1) as nat);
        let all = members(records, place, upto);
        lemma_members(records, place, (upto - 1) as nat);
        assert forall|k: int| 0 <= k < all.len() implies 0 <= (#[trigger] all[k]) < upto
            && place_of(records, all[k]) == place by {
            if k < before.len() {
                assert(all[k] == before[k]);
            }
        }
        assert forall|k: int, l: int| 0 <= k < l < all.len() implies (#[trigger] all[k]) < (
        #[trigger] all[l]) by {
            assert(all[k] == before[k]);
            if l < before.len() {
                assert(all[l] == before[l]);
            }
        }
        assert forall|j: int| 0 <= j < upto && place_of(records, j) == place implies all.contains(
            j,
        ) by {
            if j < upto - 1 {
                assert(before.contains(j));
                let k = choose|k: int| 0 <= k < before.len() && before[k] == j;
                assert(all[k] == j);
            } else {
                assert(all[all.len() - 1] == j);
            }
        }
    }
}

/// What stands in the span of a level stands in the span of one of its trees.
proof fn lemma_level_pick(records: Seq<ProcessView>, list: Seq<int>, depth: nat, j: int) -> (k: int)
    requires
        level_span(records, list, depth).contains(j),
    ensures
        0 <= k < list.len(),
        span(records, list[k], depth).contains(j),
    decreases list.len(),
{
    let all = level_span(records, list, depth);
    let front = level_span(records, list.drop_last(), depth);
    let back = span(records, list.last(), depth);
    let at = choose|at: int| 0 <= at < all.len() && all[at] == j;
    if at < front.len() {
        assert(front[at] == j);
        let k = lemma_level_pick(records, list.drop_last(), depth, j);
        k
    } else {
        assert(back[at - front.len()] == j);
        list.len() - 1
    }
}

/// What stands in the span of a tree of a level stands in the span of the level.
proof fn lemma_level_holds(records: Seq<ProcessView>, list: Seq<int>, depth: nat, k: int, j: int)
    requires
        0 <= k < list.len(),
        span(records, list[k], depth).contains(j),
    ensures
        level_span(records, list, depth).contains(j),
    decreases list.len(),
{
    let all = level_span(records, list, depth);
    let front = level_span(records, list.drop_last(), depth);
    let back = span(records, list.last(), depth);
    if k < list.len() - 1 {
        lemma_level_holds(records, list.drop_last(), depth, k, j);
        let at = choose|at: int| 0 <= at < front.len() && front[at] == j;
        assert(all[at] == j);
    } else {
        let at = choose|at: int| 0 <= at < back.len() && back[at] == j;
        assert(all[front.len() + at] == j);
    }
}

/// Every record in the span of record `i` stands at least as high as `i`,
/// and `i` is its ancestor at the height of `i`.
proof fn lemma_span_marks(records: Seq<ProcessView>, i: int, depth: nat, j: int)
    requires
        0 <= i < records.len(),
        span(records, i, depth).contains(j),
    ensures
        0 <= j < records.len(),
        height(records, j) >= height(records, i),
        ancestor(records, j, (height(records, j) - height(records, i)) as nat) == Some(i),
    decreases depth,
{
    if j != i {
        let all = span(records, i, depth);
        let at = choose|at: int| 0 <= at < all.len() && all[at] == j;
        let list = members(records, Some(i), records.len());
        let below = level_span(records, list, (depth - 1) as nat);
        assert(below[at - 1] == j);
        lemma_members(records, Some(i), records.len());
        let k = lemma_level_pick(records, list, (depth - 1) as nat, j);
        let c = list[k];
        lemma_span_marks(records, c, (depth - 1) as nat, j);
        lemma_height(records, c);
        let up = (height(records, j) - height(records, c)) as nat;
        assert(ancestor(records, j, up + 1) == place_of(records, c));
    }
}

/// The ancestors of a record are records.
proof fn lemma_ancestor_in_range(records: Seq<ProcessView>, j: int, up: nat)
    requires
        0 <= j < records.len(),
    ensures
        ancestor(records, j, up) matches Some(a) ==> 0 <= a < records.len(),
    decreases up,
{
    if up > 0 {
        lemma_ancestor_in_range(records, j, (up - 1) as nat);
        if let Some(a) = ancestor(records, j, (up - 1) as nat) {
            lemma_parent_in_range(records, a);
        }
    }
}

/// Going up from a record, every level down to that of the roots has an
/// ancestor of the record, and the one at the level of the roots is a root.
proof fn lemma_ancestor_heights(records: Seq<ProcessView>, j: int, up: nat)
    requires
        0 <= j < records.len(),
        up <= height(records, j),
    ensures
        ancestor(records, j, up) matches Some(a) && 0 <= a < records.len() && height(records, a)
            == height(records, j) - up,
    decreases up,
{
    if up > 0 {
        lemma_ancestor_heights(records, j, (up - 1) as nat);
        let a = ancestor(records, j, (up - 1) as nat)->0;
        lemma_height(records, a);
        lemma_parent_in_range(records, a);
    }
}

/// A record stands in the span of each of its ancestors, where the span is deep enough.
proof fn lemma_span_covers(records: Seq<ProcessView>, i: int, depth: nat, j: int, up: nat)
    requires
        0 <= j < records.len(),
        ancestor(records, j, up) == Some(i),
        up <= depth,
    ensures
        span(records, i, depth).contains(j),
    decreases up,
{
    let all = span(records, i, depth);
    if up == 0 {
        assert(all[0] == j);
    } else {
        let c = ancestor(records, j, (up - 1) as nat)->0;
        lemma_ancestor_in_range(records, j, (up - 1) as nat);
        let list = members(records, Some(i), records.len());
        lemma_members(records, Some(i), records.len());
        assert(list.contains(c));
        let k = choose|k: int| 0 <= k < list.len() && list[k] == c;
        lemma_span_covers(records, c, (depth - 1) as nat, j, (up - 1) as nat);
        lemma_level_holds(records, list, (depth - 1) as nat, k, j);
        let below = level_span(records, list, (depth - 1) as nat);
        let at = choose|at: int| 0 <= at < below.len() && below[at] == j;
        assert(all[at + 1] == j);
    }
}

/// No record stands twice in the span of a record.
proof fn lemma_span_no_duplicates(records: Seq<ProcessView>, i: int, depth: nat)
    requires
        0 <= i < records.len(),
    ensures
        span(records, i, depth).no_duplicates(),
    decreases depth, 0nat,
{
    if depth > 0 {
        let list = members(records, Some(i), records.len());
        let below = level_span(records, list, (depth - 1) as nat);
        lemma_members(records, Some(i), records.len());
        lemma_level_no_duplicates(records, list, (depth - 1) as nat, Some(i));
        let own = seq![i];
        assert forall|a: int, b: int| 0 <= a < own.len() && 0 <= b < below.len() implies own[a]
            != below[b] by {
            assert(below.contains(below[b]));
            let k = lemma_level_pick(records, list, (depth - 1) as nat, below[b]);
            lemma_span_marks(records, list[k], (depth - 1) as nat, below[b]);
            lemma_height(records, list[k]);
        }
        vstd::seq_lib::lemma_no_dup_in_concat(own, below);
    }
}

/// No record stands twice in the span of a level of records that are all
/// placed at `place`.
proof fn lemma_level_no_duplicates(
    records: Seq<ProcessView>,
    list: Seq<int>,
    depth: nat,
    place: Option<int>,
)
    requires
        forall|k: int|
            0 <= k < list.len() ==> 0 <= (#[trigger] list[k]) < records.len() && place_of(
                records,
                list[k],
            ) == place,
        forall|k: int, l: int| 0 <= k < l < list.len() ==> (#[trigger] list[k]) < (#[trigger] list[l]),
    ensures
        level_span(records, list, depth).no_duplicates(),
    decreases depth, list.len(),
{
    if list.len() > 0 {
        let rest = list.drop_last();
        let front = level_span(records, rest, depth);
        let back = span(records, list.last(), depth);
        lemma_level_no_duplicates(records, rest, depth, place);
        lemma_span_no_duplicates(records, list.last(), depth);
        assert forall|a: int, b: int| 0 <= a < front.len() && 0 <= b < back.len() implies front[a]
            != back[b] by {
            if front[a] == back[b] {
                let j = front[a];
                assert(front.contains(j));
                assert(back.contains(j));
                let k = lemma_level_pick(records, rest, depth, j);
                lemma_span_marks(records, rest[k], depth, j);
                lemma_span_marks(records, list.last(), depth, j);
                lemma_height(records, rest[k]);
                lemma_height(records, list.last());
                assert(rest[k] == list[k]);
                assert(list[k] < list[list.len() - 1]);
            }
        }
        vstd::seq_lib::lemma_no_dup_in_concat(front, back);
    }
}

/// The records at the places `places`.
pub open spec fn at_places(records: Seq<ProcessView>, places: Seq<int>) -> Seq<ProcessView> {
    Seq::new(places.len(), |k: int| records[places[k]])
}

/// The trees, to the depth `depth`, of the records at the places `list`.
pub open spec fn trees_at(records: Seq<ProcessView>, list: Seq<int>, depth: nat) -> Seq<Tree> {
    Seq::new(list.len(), |k: int| tree_at(records, list[k], depth))
}

/// The processes of the tree of a record are the records at the places of its span.
proof fn lemma_tree_span(records: Seq<ProcessView>, i: int, depth: nat)
    ensures
        tree_processes(tree_at(records, i, depth)) == at_places(records, span(records, i, depth)),
    decreases depth, 0nat,
{
    let tree = tree_at(records, i, depth);
    if depth == 0 {
        assert(tree.children =~= Seq::<Tree>::empty());
        assert(level_processes(tree.children) =~= Seq::<ProcessView>::empty());
        assert(tree_processes(tree) =~= at_places(records, span(records, i, depth)));
    } else {
        let list = members(records, Some(i), records.len());
        assert(tree.children =~= trees_at(records, list, (depth - 1) as nat));
        lemma_level_span(records, list, (depth - 1) as nat);
        assert(tree_processes(tree) =~= at_places(records, span(records, i, depth)));
    }
}

/// The processes of a level of trees of records are the records at the
/// places of the level's span.
proof fn lemma_level_span(records: Seq<ProcessView>, list: Seq<int>, depth: nat)
    ensures
        level_processes(trees_at(records, list, depth)) == at_places(
            records,
            level_span(records, list, depth),
        ),
    decreases depth, list.len(),
{
    let level = trees_at(records, list, depth);
    if list.len() == 0 {
        assert(level_processes(level) =~= at_places(records, level_span(records, list, depth)));
    } else {
        assert(level.drop_last() =~= trees_at(records, list.drop_last(), depth));
        assert(level.last() == tree_at(records, list.last(), depth));
        lemma_level_span(records, list.drop_last(), depth);
        lemma_tree_span(records, list.last(), depth);
        assert(level_processes(level) =~= at_places(records, level_span(records, list, depth)));
    }
}

/// Whether every place from 0 up to `count` stands in `places` once, and nothing else.
pub open spec fn lists_each_once(places: Seq<int>, count: nat) -> bool {
    &&& places.no_duplicates()
    &&& forall|k: int| 0 <= k < places.len() ==> 0 <= (#[trigger] places[k]) < count
    &&& forall|j: int| 0 <= j < count ==> #[trigger] places.contains(j)
}

/// Where `places` lists the place of every record once, it lists the last
/// place somewhere; without it, it lists the places of the records before
/// the last, each once, and the records at those places are the same.
pub proof fn lemma_without_last_place(records: Seq<ProcessView>, places: Seq<int>) -> (at: int)
    requires
        records.len() > 0,
        lists_each_once(places, records.len()),
    ensures
        0 <= at < places.len(),
        places[at] == records.len() - 1,
        lists_each_once(places.remove(at), (records.len() - 1) as nat),
        at_places(records, places) == at_places(records.drop_last(), places.remove(at)).insert(
            at,
            records.last(),
        ),
{
    let last = records.len() - 1;
    assert(places.contains(last));
    let at = choose|at: int| 0 <= at < places.len() && places[at] == last;
    let rest = places.remove(at);
    let fewer = records.drop_last();
    assert forall|k: int| 0 <= k < rest.len() implies 0 <= (#[trigger] rest[k]) < fewer.len() by {
        if k < at {
            assert(rest[k] == places[k]);
        } else {
            assert(rest[k] == places[k + 1]);
        }
    }
    assert forall|j: int| 0 <= j < fewer.len() implies #[trigger] rest.contains(j) by {
        assert(places.contains(j));
        let k = choose|k: int| 0 <= k < places.len() && places[k] == j;
        if k < at {
            assert(rest[k] == j);
        } else {
            assert(rest[k - 1] == j);
        }
    }
    assert(rest.no_duplicates()) by {
        assert forall|k: int, l: int| 0 <= k < rest.len() && 0 <= l < rest.len() && k
            != l implies rest[k] != rest[l] by {
            let from_k = if k < at {
                k
            } else {
                k + 1
            };
            let from_l = if l < at {
                l
            } else {
                l + 1
            };
            assert(rest[k] == places[from_k] && rest[l] == places[from_l]);
        }
    }
    assert(at_places(records, places) =~= at_places(fewer, rest).insert(at, records.last()));
    at
}

/// The records at places that list every place once are the records, each
/// as often as it is among them, in another order.
pub proof fn lemma_at_places_rearranges(records: Seq<ProcessView>, places: Seq<int>)
    requires
        lists_each_once(places, records.len()),
    ensures
        at_places(records, places).to_multiset() == records.to_multiset(),
    decreases records.len(),
{
    broadcast use vstd::seq_lib::group_to_multiset_ensures;

    if records.len() == 0 {
        if places.len() > 0 {
            assert(0 <= places[0] < records.len());
        }
        assert(at_places(records, places) =~= records);
    } else {
        let at = lemma_without_last_place(records, places);
        let fewer = records.drop_last();
        lemma_at_places_rearranges(fewer, places.remove(at));
        assert(records =~= fewer.push(records.last()));
    }
}

/// The forest holds every record in one node and in no second one: the
/// processes of its nodes are the records, each as often as it is among
/// them. In the order of the nodes, every root followed by all below it,
/// they are the records at the places `forest_order`, in which every place
/// of a record stands once.
pub proof fn lemma_every_record_once(records: Seq<ProcessView>)
    ensures
        level_processes(forest_of(records)).to_multiset() == records.to_multiset(),
        level_processes(forest_of(records)) == at_places(records, forest_order(records)),
        forest_order(records).len() == records.len(),
        lists_each_once(forest_order(records), records.len()),
{
    let n = records.len();
    let roots = members(records, None, n);
    let order = forest_order(records);
    lemma_members(records, None, n);
    assert(forest_of(records) =~= trees_at(records, roots, n));
    lemma_level_span(records, roots, n);
    lemma_level_no_duplicates(records, roots, n, None);
    assert(order.no_duplicates());
    assert forall|k: int| 0 <= k < order.len() implies 0 <= (#[trigger] order[k]) < n by {
        assert(order.contains(order[k]));
        let r = lemma_level_pick(records, roots, n, order[k]);
        lemma_span_marks(records, roots[r], n, order[k]);
    }
    assert forall|j: int| 0 <= j < n implies #[trigger] order.contains(j) by {
        lemma_height(records, j);
        lemma_ancestor_heights(records, j, height(records, j));
        let root = ancestor(records, j, height(records, j))->0;
        lemma_height(records, root);
        assert(place_of(records, root) is None);
        assert(roots.contains(root));
        let r = choose|r: int| 0 <= r < roots.len() && roots[r] == root;
        lemma_span_covers(records, root, n, j, height(records, j));
        lemma_level_holds(records, roots, n, r, j);
    }
    assert(order.len() == n) by {
        order.unique_seq_to_set();
        vstd::set_lib::lemma_int_range(0, n as int);
        assert(order.to_set() =~= vstd::set_lib::set_int_range(0, n as int)) by {
            assert forall|j: int| order.to_set().contains(j) implies 0 <= j < n by {
                let k = choose|k: int| 0 <= k < order.len() && order[k] == j;
            }
        }
    }
    lemma_at_places_rearranges(records, order);
}

/// A record whose parent is not among the records, or that has none or is
/// its own, stands at the root of one of the trees of the forest.
pub proof fn lemma_without_parent_is_root(records: Seq<ProcessView>, j: int) -> (k: int)
    requires
        0 <= j < records.len(),
        parent_index(records, j) is None,
    ensures
        0 <= k < forest_of(records).len(),
        forest_of(records)[k] == tree_at(records, j, records.len()),
        forest_of(records)[k].process == records[j],
{
    let roots = members(records, None, records.len());
    lemma_members(records, None, records.len());
    assert(roots.contains(j));
    choose|k: int| 0 <= k < roots.len() && roots[k] == j
}

/// Whether one of `processes` has the pid `pid`.
pub open spec fn among(processes: Seq<ProcessView>, pid: u32) -> bool {
    exists|k: int| 0 <= k < processes.len() && (#[trigger] processes[k]).pid == pid
}

/// A tree holds a pid where one of its processes has it; so it is with a level.
pub proof fn lemma_holds_among(tree: Tree, pid: u32)
    ensures
        tree_holds(tree, pid) == among(tree_processes(tree), pid),
        level_holds(tree.children, pid) == among(level_processes(tree.children), pid),
    decreases tree,
{
    lemma_level_holds_among(tree.children, pid);
    let all = tree_processes(tree);
    let below = level_processes(tree.children);
    if among(below, pid) {
        let k = choose|k: int| 0 <= k < below.len() && (#[trigger] below[k]).pid == pid;
        assert(all[k + 1].pid == pid);
    }
    if tree.process.pid == pid {
        assert(all[0].pid == pid);
    }
    if among(all, pid) {
        let k = choose|k: int| 0 <= k < all.len() && (#[trigger] all[k]).pid == pid;
        if k > 0 {
            assert(below[k - 1].pid == pid);
        }
    }
}

/// A level holds a pid where one of the processes of its trees has it.
pub proof fn lemma_level_holds_among(level: Seq<Tree>, pid: u32)
    ensures
        level_holds(level, pid) == among(level_processes(level), pid),
    decreases level,
{
    let all = level_processes(level);
    if level.len() > 0 {
        let front = level_processes(level.drop_last());
        let back = tree_processes(level.last());
        lemma_level_holds_among(level.drop_last(), pid);
        lemma_holds_among(level.last(), pid);
        if among(front, pid) {
            let k = choose|k: int| 0 <= k < front.len() && (#[trigger] front[k]).pid == pid;
            assert(all[k].pid == pid);
        }
        if among(back, pid) {
            let k = choose|k: int| 0 <= k < back.len() && (#[trigger] back[k]).pid == pid;
            assert(all[front.len() + k].pid == pid);
        }
        if among(all, pid) {
            let k = choose|k: int| 0 <= k < all.len() && (#[trigger] all[k]).pid == pid;
            if k < front.len() {
                assert(front[k].pid == pid);
            } else {
                assert(back[k - front.len()].pid == pid);
            }
        }
    }
}

/// The forest of `records` holds a pid where one of `records` has it.
pub proof fn lemma_forest_holds(records: Seq<ProcessView>, pid: u32)
    ensures
        level_holds(forest_of(records), pid) == among(records, pid),
{
    let order = forest_order(records);
    let nodes = level_processes(forest_of(records));
    lemma_every_record_once(records);
    lemma_level_holds_among(forest_of(records), pid);
    if among(nodes, pid) {
        let k = choose|k: int| 0 <= k < nodes.len() && (#[trigger] nodes[k]).pid == pid;
        assert(records[order[k]].pid == pid);
    }
    if among(records, pid) {
        let j = choose|j: int| 0 <= j < records.len() && (#[trigger] records[j]).pid == pid;
        assert(order.contains(j));
        let k = choose|k: int| 0 <= k < order.len() && order[k] == j;
        assert(nodes[k].pid == pid);
    }
}

} // verus!
