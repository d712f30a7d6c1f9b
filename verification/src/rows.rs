//! The rows that are shown: the two header lines, and one line for every
//! node of the forest whose name passes the pattern.

use crate::pattern::{compiled, Regex};
use crate::process::{command_text, table_cells, table_text, Process};
use crate::text::{push_repeated, repeated};
use crate::totals::{level_processes, tree_processes};
use crate::tree::{lemma_node_view, trees, Forest, Tree, TreeNode};
use vstd::prelude::*;
use vstd::string::*;

verus! {

broadcast use {vstd::seq::axiom_seq_subrange_decreases, vstd::seq::group_seq_axioms};

/// What stands between the number columns and the command.
pub open spec fn separator() -> Seq<char> {
    seq![' ', '┃', ' ']
}

/// By how much the children of a node are indented more than the node.
pub open spec fn step() -> Seq<char> {
    seq![' ', ' ']
}

/// The line of the root of `tree`: the number columns, from the node's pid
/// and total, the separator, the indentation, and the command.
pub open spec fn row_text(tree: Tree, indent: Seq<char>) -> Seq<char> {
    table_text(tree.process.pid, tree.total) + separator() + indent + command_text(tree.process)
}

/// The rows of `tree`, the root first and then its children's rows, each
/// child one step further in. A node whose name does not pass `pattern` has
/// no row; the nodes below it keep theirs, indented as if it had one.
pub open spec fn tree_rows(tree: Tree, indent: Seq<char>, pattern: Regex) -> Seq<(u32, Seq<char>)>
    decreases tree,
{
    let own = if pattern.matches(tree.process.name) {
        seq![(tree.process.pid, row_text(tree, indent))]
    } else {
        Seq::empty()
    };
    own + level_rows(tree.children, indent + step(), pattern)
}

/// The rows of the trees of `level`, one tree after the other.
pub open spec fn level_rows(level: Seq<Tree>, indent: Seq<char>, pattern: Regex) -> Seq<
    (u32, Seq<char>),
>
    decreases level,
{
    if level.len() == 0 {
        Seq::empty()
    } else {
        level_rows(level.drop_last(), indent, pattern) + tree_rows(level.last(), indent, pattern)
    }
}

/// The rows of `forest`, its roots not indented.
pub open spec fn forest_rows(forest: Seq<Tree>, pattern: Regex) -> Seq<(u32, Seq<char>)> {
    level_rows(forest, Seq::empty(), pattern)
}

/// The rows `rows` as plain values.
pub open spec fn row_views(rows: Seq<(u32, String)>) -> Seq<(u32, Seq<char>)> {
    Seq::new(rows.len(), |k: int| (rows[k].0, rows[k].1@))
}

/// A pattern that no name passes leaves no row.
pub proof fn lemma_no_match_no_rows(level: Seq<Tree>, indent: Seq<char>, pattern: Regex)
    requires
        forall|name: Seq<char>| !pattern.matches(name),
    ensures
        level_rows(level, indent, pattern) == Seq::<(u32, Seq<char>)>::empty(),
    decreases level,
{
    if level.len() > 0 {
        lemma_no_match_no_rows(level.drop_last(), indent, pattern);
        lemma_no_match_no_rows(level.last().children, indent + step(), pattern);
        assert(!pattern.matches(level.last().process.name));
        assert(tree_rows(level.last(), indent, pattern) =~= Seq::<(u32, Seq<char>)>::empty());
    }
}

/// A row before the pattern is asked: the name that the pattern is held
/// against, and the row itself.
pub struct Line {
    pub name: Seq<char>,
    pub row: (u32, Seq<char>),
}

/// All the lines of `tree`, the root first and then the lines of its children's trees.
pub open spec fn tree_lines(tree: Tree, indent: Seq<char>) -> Seq<Line>
    decreases tree,
{
    seq![Line { name: tree.process.name, row: (tree.process.pid, row_text(tree, indent)) }]
        + level_lines(tree.children, indent + step())
}

/// All the lines of the trees of `level`, one tree after the other.
pub open spec fn level_lines(level: Seq<Tree>, indent: Seq<char>) -> Seq<Line>
    decreases level,
{
    if level.len() == 0 {
        Seq::empty()
    } else {
        level_lines(level.drop_last(), indent) + tree_lines(level.last(), indent)
    }
}

/// The rows of the lines of `lines` whose name passes `pattern`.
pub open spec fn passing(lines: Seq<Line>, pattern: Regex) -> Seq<(u32, Seq<char>)>
    decreases lines.len(),
{
    if lines.len() == 0 {
        Seq::empty()
    } else if pattern.matches(lines.last().name) {
        passing(lines.drop_last(), pattern).push(lines.last().row)
    } else {
        passing(lines.drop_last(), pattern)
    }
}

/// The passing rows of one run of lines after another are those of the
/// first and then those of the second.
pub proof fn lemma_passing_concat(first: Seq<Line>, second: Seq<Line>, pattern: Regex)
    ensures
        passing(first + second, pattern) == passing(first, pattern) + passing(second, pattern),
    decreases second.len(),
{
    if second.len() == 0 {
        assert(first + second =~= first);
        assert(passing(first + second, pattern) =~= passing(first, pattern) + passing(
            second,
            pattern,
        ));
    } else {
        assert((first + second).drop_last() =~= first + second.drop_last());
        assert((first + second).last() == second.last());
        lemma_passing_concat(first, second.drop_last(), pattern);
        assert(passing(first + second, pattern) =~= passing(first, pattern) + passing(
            second,
            pattern,
        ));
    }
}

/// The pattern is asked row by row: the rows of a tree under a pattern are
/// the rows it has under no pattern, each as it is there, without those
/// whose own name does not pass. A row stays though the row above it goes.
pub proof fn lemma_rows_pass_one_by_one(tree: Tree, indent: Seq<char>, pattern: Regex)
    ensures
        tree_rows(tree, indent, pattern) == passing(tree_lines(tree, indent), pattern),
    decreases tree,
{
    let own = seq![Line { name: tree.process.name, row: (tree.process.pid, row_text(tree, indent)) }];
    lemma_level_rows_pass_one_by_one(tree.children, indent + step(), pattern);
    lemma_passing_concat(own, level_lines(tree.children, indent + step()), pattern);
    assert(own.drop_last() =~= Seq::<Line>::empty());
    assert(passing(own.drop_last(), pattern) =~= Seq::<(u32, Seq<char>)>::empty());
    assert(tree_rows(tree, indent, pattern) =~= passing(tree_lines(tree, indent), pattern));
}

/// The rows of a level under a pattern are the rows it has under no
/// pattern, each as it is there, without those whose own name does not pass.
pub proof fn lemma_level_rows_pass_one_by_one(level: Seq<Tree>, indent: Seq<char>, pattern: Regex)
    ensures
        level_rows(level, indent, pattern) == passing(level_lines(level, indent), pattern),
    decreases level,
{
    if level.len() > 0 {
        lemma_level_rows_pass_one_by_one(level.drop_last(), indent, pattern);
        lemma_rows_pass_one_by_one(level.last(), indent, pattern);
        lemma_passing_concat(
            level_lines(level.drop_last(), indent),
            tree_lines(level.last(), indent),
            pattern,
        );
    }
}

/// The lines of a tree are one for each of its processes, in the same
/// order, each with the name and the pid of its process.
pub proof fn lemma_tree_lines(tree: Tree, indent: Seq<char>)
    ensures
        tree_lines(tree, indent).len() == tree_processes(tree).len(),
        forall|k: int|
            0 <= k < tree_lines(tree, indent).len() ==> (#[trigger] tree_lines(
                tree,
                indent,
            )[k]).name == tree_processes(tree)[k].name && tree_lines(tree, indent)[k].row.0
                == tree_processes(tree)[k].pid,
    decreases tree,
{
    lemma_level_lines(tree.children, indent + step());
}

/// The lines of a level are one for each process of its trees, in the same
/// order, each with the name and the pid of its process.
pub proof fn lemma_level_lines(level: Seq<Tree>, indent: Seq<char>)
    ensures
        level_lines(level, indent).len() == level_processes(level).len(),
        forall|k: int|
            0 <= k < level_lines(level, indent).len() ==> (#[trigger] level_lines(
                level,
                indent,
            )[k]).name == level_processes(level)[k].name && level_lines(level, indent)[k].row.0
                == level_processes(level)[k].pid,
    decreases level,
{
    if level.len() > 0 {
        lemma_level_lines(level.drop_last(), indent);
        lemma_tree_lines(level.last(), indent);
    }
}

/// The passing rows are no more than the lines, are all of them where
/// every name passes, and each is the row of one of the lines.
pub proof fn lemma_passing(lines: Seq<Line>, pattern: Regex)
    ensures
        passing(lines, pattern).len() <= lines.len(),
        (forall|name: Seq<char>| pattern.matches(name)) ==> passing(lines, pattern).len()
            == lines.len(),
        forall|k: int|
            0 <= k < passing(lines, pattern).len() ==> exists|j: int|
                0 <= j < lines.len() && (#[trigger] lines[j]).row == #[trigger] passing(
                    lines,
                    pattern,
                )[k],
    decreases lines.len(),
{
    if lines.len() > 0 {
        let before = lines.drop_last();
        lemma_passing(before, pattern);
        if forall|name: Seq<char>| pattern.matches(name) {
            assert(pattern.matches(lines.last().name));
        }
        assert forall|k: int| 0 <= k < passing(lines, pattern).len() implies exists|j: int|
            0 <= j < lines.len() && (#[trigger] lines[j]).row == #[trigger] passing(
                lines,
                pattern,
            )[k] by {
            if k < passing(before, pattern).len() {
                let j = choose|j: int|
                    0 <= j < before.len() && (#[trigger] before[j]).row == passing(
                        before,
                        pattern,
                    )[k];
                assert(lines[j].row == passing(lines, pattern)[k]);
            } else {
                assert(lines[lines.len() - 1].row == passing(lines, pattern)[k]);
            }
        }
    }
}

/// A pattern that does not compile shows no row of any forest.
pub proof fn lemma_invalid_pattern_no_rows(text: Seq<char>, pattern: Regex, forest: Seq<Tree>)
    requires
        compiled(text, true) is Err,
        pattern.stands_for(text),
    ensures
        pattern is Invalid,
        forall|name: Seq<char>| !pattern.matches(name),
        forest_rows(forest, pattern) == Seq::<(u32, Seq<char>)>::empty(),
{
    lemma_no_match_no_rows(forest, Seq::empty(), pattern);
}

fn push_rows(node: &TreeNode, indent: &str, pattern: &Regex, out: &mut Vec<(u32, String)>)
    ensures
        row_views(final(out)@) == row_views(old(out)@) + tree_rows(node@, indent@, *pattern),
    decreases node,
{
    proof {
        lemma_node_view(*node);
    }
    if pattern.is_match(node.process.name.as_str()) {
        let mut line = table_cells(node.process.pid, &node.total);
        line.push(' ');
        line.push('┃');
        line.push(' ');
        line.append(indent);
        let command = node.process.command();
        line.append(command.as_str());
        assert(line@ == row_text(node@, indent@));
        let ghost before = out@;
        out.push((node.process.pid, line));
        assert(row_views(out@) =~= row_views(before) + seq![(node@.process.pid, row_text(node@, indent@))]);
    }
    let mut deeper = String::from_str(indent);
    deeper.push(' ');
    deeper.push(' ');
    assert(deeper@ == indent@ + step());
    let ghost own = row_views(out@);
    let mut k: usize = 0;
    assert(trees(node.children@).take(0) =~= Seq::<Tree>::empty());
    while k < node.children.len()
        invariant
            k <= node.children.len(),
            row_views(out@) == own + level_rows(trees(node.children@).take(k as int), deeper@, *pattern),
        decreases node.children.len() - k,
    {
        let ghost before = row_views(out@);
        push_rows(&node.children[k], deeper.as_str(), pattern, out);
        k += 1;
        proof {
            let level = trees(node.children@).take(k as int);
            assert(level.drop_last() =~= trees(node.children@).take(k - 1));
            assert(level.last() == node.children[k - 1]@);
            assert(row_views(out@) =~= own + level_rows(level, deeper@, *pattern));
        }
    }
    assert(trees(node.children@).take(k as int) =~= node@.children);
}

impl Forest {
    /// The rows of this forest under `pattern`, each with the pid of its node.
    pub fn format_processes(&self, pattern: &Regex) -> (rows: Vec<(u32, String)>)
        ensures
            row_views(rows@) == forest_rows(self@, *pattern),
    {
        let mut rows: Vec<(u32, String)> = Vec::new();
        let indent = String::new();
        let mut k: usize = 0;
        assert(self@.take(0) =~= Seq::<Tree>::empty());
        assert(row_views(rows@) =~= Seq::<(u32, Seq<char>)>::empty());
        while k < self.roots.len()
            invariant
                k <= self.roots.len(),
                indent@ == Seq::<char>::empty(),
                row_views(rows@) == level_rows(self@.take(k as int), indent@, *pattern),
            decreases self.roots.len() - k,
        {
            push_rows(&self.roots[k], indent.as_str(), pattern, &mut rows);
            k += 1;
            proof {
                let level = self@.take(k as int);
                assert(level.drop_last() =~= self@.take(k - 1));
                assert(level.last() == self.roots[k - 1]@);
            }
        }
        assert(self@.take(k as int) =~= self@);
        rows
    }
}

/// The titles of the number columns.
pub open spec fn table_header() -> Seq<char> {
    "     pid   cpu       ram"@
}

/// The two lines above the rows, for a screen `width` characters wide: the
/// column titles, and a rule that crosses the separator and runs on to the
/// right edge.
pub open spec fn header_lines(width: nat) -> Seq<Seq<char>> {
    let left = table_header().len() + 1;
    let right = if width > left + 1 {
        (width - left - 1) as nat
    } else {
        0
    };
    seq![
        table_header() + separator() + "executable"@,
        repeated('━', left) + seq!['╋'] + repeated('━', right),
    ]
}

/// The text of each string of `lines`.
pub open spec fn line_views(lines: Seq<String>) -> Seq<Seq<char>> {
    Seq::new(lines.len(), |k: int| lines[k]@)
}

impl Process {
    /// The two header lines for a screen `width` characters wide.
    pub fn format_header(width: usize) -> (lines: Vec<String>)
        ensures
            line_views(lines@) == header_lines(width as nat),
    {
        let titles = "     pid   cpu       ram";
        proof {
            reveal_strlit("     pid   cpu       ram");
        }
        let columns = titles.unicode_len();
        let mut first = String::from_str(titles);
        first.push(' ');
        first.push('┃');
        first.push(' ');
        let title = Process::node_header();
        first.append(title.as_str());
        assert(first@ =~= table_header() + separator() + "executable"@);
        let mut second = String::new();
        push_repeated(&mut second, '━', columns + 1);
        second.push('╋');
        push_repeated(&mut second, '━', width.saturating_sub(columns + 2));
        assert(second@ =~= header_lines(width as nat)[1]);
        let mut lines: Vec<String> = Vec::new();
        lines.push(first);
        lines.push(second);
        assert(line_views(lines@) =~= header_lines(width as nat));
        lines
    }
}

} // verus!
