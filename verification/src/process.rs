//! One process of a snapshot, its metrics, and the keys by which processes are ordered.

use crate::text::{
    decimal, group_thousands, grouped, push_decimal, push_right_aligned, right_aligned,
};
use std::cmp::Ordering;
use vstd::prelude::*;
use vstd::string::*;

verus! {

/// Bytes in one of the megabytes in which memory is shown.
pub const MEGABYTE: u64 = 1048576;

/// What a process uses, or what a process and everything below it use together.
///
/// `cpu` counts hundredths of a percent of one core. `None` stands for a
/// reading that is not a number: it compares with nothing, and a sum that
/// takes it in is `None` again. `ram` counts bytes.
#[derive(Debug, Clone, Copy, PartialEq, Eq, Structural)]
pub struct Metrics {
    pub cpu: Option<u64>,
    pub ram: u64,
}

impl Metrics {
    /// The sum of two metrics, each part stopping at the largest `u64`.
    pub open spec fn plus(self, other: Metrics) -> Metrics {
        Metrics {
            cpu: match (self.cpu, other.cpu) {
                (Some(a), Some(b)) => Some(
                    if a + b > u64::MAX {
                        u64::MAX
                    } else {
                        (a + b) as u64
                    },
                ),
                _ => None,
            },
            ram: if self.ram + other.ram > u64::MAX {
                u64::MAX
            } else {
                (self.ram + other.ram) as u64
            },
        }
    }

    /// Nothing used: the metrics that change no sum.
    pub open spec fn nothing() -> Metrics {
        Metrics { cpu: Some(0), ram: 0 }
    }

    /// Adds `other` to `self`.
    pub fn accumulate_from(&mut self, other: &Metrics)
        ensures
            *final(self) == old(self).plus(*other),
    {
        self.cpu = match (self.cpu, other.cpu) {
            (Some(a), Some(b)) => Some(a.saturating_add(b)),
            _ => None,
        };
        self.ram = self.ram.saturating_add(other.ram);
    }

    /// `plus` does not care in which order, or in which grouping, metrics
    /// are added, and `nothing()` changes no sum.
    pub proof fn lemma_plus_laws(a: Metrics, b: Metrics, c: Metrics)
        ensures
            a.plus(b) == b.plus(a),
            a.plus(b).plus(c) == a.plus(b.plus(c)),
            a.plus(Metrics::nothing()) == a,
    {
    }
}

/// One process as a snapshot shows it.
#[derive(Debug)]
pub struct Process {
    pub pid: u32,
    pub name: String,
    pub arguments: Vec<String>,
    pub parent: Option<u32>,
    pub metrics: Metrics,
}

/// What a `Process` holds, as plain values.
pub struct ProcessView {
    pub pid: u32,
    pub name: Seq<char>,
    pub arguments: Seq<Seq<char>>,
    pub parent: Option<u32>,
    pub metrics: Metrics,
}

impl View for Process {
    type V = ProcessView;

    open spec fn view(&self) -> ProcessView {
        ProcessView {
            pid: self.pid,
            name: self.name@,
            arguments: texts(self.arguments@),
            parent: self.parent,
            metrics: self.metrics,
        }
    }
}

/// The text of each string of `strings`.
pub open spec fn texts(strings: Seq<String>) -> Seq<Seq<char>> {
    strings.map_values(|s: String| s@)
}

/// The view of each process of `processes`.
pub open spec fn views(processes: Seq<Process>) -> Seq<ProcessView> {
    processes.map_values(|p: Process| p@)
}

impl Clone for Process {
    fn clone(&self) -> (r: Process)
        ensures
            r@ == self@,
    {
        let mut arguments: Vec<String> = Vec::new();
        let mut i: usize = 0;
        while i < self.arguments.len()
            invariant
                i <= self.arguments.len(),
                arguments.len() == i,
                forall|k: int| 0 <= k < i ==> arguments[k]@ == self.arguments[k]@,
            decreases self.arguments.len() - i,
        {
            arguments.push(self.arguments[i].clone());
            i += 1;
        }
        assert(texts(arguments@) =~= texts(self.arguments@));
        Process {
            pid: self.pid,
            name: self.name.clone(),
            arguments,
            parent: self.parent,
            metrics: self.metrics,
        }
    }
}

/// The last component of a path, as `std::path::Path::file_name` gives it
/// on the platform the crate is built for; `None` where the path has none.
pub uninterp spec fn file_name_of(path: Seq<char>) -> Option<Seq<char>>;

/// The last component of `path`, or all of `path` where it has none.
pub open spec fn leaf_of(path: Seq<char>) -> Seq<char> {
    match file_name_of(path) {
        Some(leaf) => leaf,
        None => path,
    }
}

/// `std::path::Path::file_name` on a path given as text: the final
/// component, if the path has one.
#[verifier::external_body]
fn file_name(path: &str) -> (r: Option<String>)
    ensures
        r is Some <==> file_name_of(path@) is Some,
        r matches Some(leaf) ==> file_name_of(path@) == Some(leaf@),
{
    match std::path::Path::new(path).file_name() {
        Some(leaf) => Some(leaf.to_string_lossy().into_owned()),
        None => None,
    }
}

fn leaf(path: &str) -> (r: String)
    ensures
        r@ == leaf_of(path@),
{
    match file_name(path) {
        Some(leaf) => leaf,
        None => String::from_str(path),
    }
}

/// Each argument of `arguments` with a space in front of it.
pub open spec fn trailing(arguments: Seq<Seq<char>>) -> Seq<char>
    decreases arguments.len(),
{
    if arguments.len() == 0 {
        Seq::empty()
    } else {
        trailing(arguments.drop_last()) + seq![' '] + arguments.last()
    }
}

/// The hundredths of a percent in `hundredths`, rounded to whole percent;
/// a half goes to the even neighbour.
pub open spec fn whole_percent(hundredths: nat) -> nat {
    let whole = hundredths / 100;
    let rest = hundredths % 100;
    if rest > 50 || (rest == 50 && whole % 2 == 1) {
        whole + 1
    } else {
        whole
    }
}

/// The processor column: whole percent, or `NaN` for a reading that is no number.
pub open spec fn cpu_text(cpu: Option<u64>) -> Seq<char> {
    match cpu {
        Some(hundredths) => decimal(whole_percent(hundredths as nat)),
        None => seq!['N', 'a', 'N'],
    }
}

/// The number columns of a row: the pid in a field of eight, the processor
/// use in whole percent in a field of four, and the memory in megabytes,
/// digits grouped, in a field of seven.
pub open spec fn table_text(pid: u32, metrics: Metrics) -> Seq<char> {
    right_aligned(decimal(pid as nat), 8) + seq![' '] + right_aligned(cpu_text(metrics.cpu), 4)
        + seq!['%', ' '] + right_aligned(grouped((metrics.ram / MEGABYTE) as nat), 7) + seq![
        'M',
        'B',
    ]
}

/// What a process is shown as: the file name of its first argument, or its
/// name where it has no arguments, and then the other arguments.
pub open spec fn command_text(process: ProcessView) -> Seq<char> {
    if process.arguments.len() == 0 {
        process.name
    } else {
        leaf_of(process.arguments[0]) + trailing(process.arguments.skip(1))
    }
}

/// The name a process goes by: the file name of its executable, the path of
/// the executable where that has no file name, or else the name the system
/// reports.
pub open spec fn executable_text(executable: Option<Seq<char>>, reported: Seq<char>) -> Seq<char> {
    match executable {
        Some(path) => leaf_of(path),
        None => reported,
    }
}

/// The number columns for `pid` and `metrics`.
pub fn table_cells(pid: u32, metrics: &Metrics) -> (r: String)
    ensures
        r@ == table_text(pid, *metrics),
{
    let mut out = String::new();
    let mut number = String::new();
    push_decimal(&mut number, pid as u64);
    push_right_aligned(&mut out, number.as_str(), 8);
    out.push(' ');
    match metrics.cpu {
        Some(hundredths) => {
            let whole = hundredths / 100;
            let rest = hundredths % 100;
            let shown = if rest > 50 || (rest == 50 && whole % 2 == 1) {
                whole + 1
            } else {
                whole
            };
            let mut percent = String::new();
            push_decimal(&mut percent, shown);
            push_right_aligned(&mut out, percent.as_str(), 4);
        },
        None => {
            let mut percent = String::new();
            percent.push('N');
            percent.push('a');
            percent.push('N');
            assert(percent@ == seq!['N', 'a', 'N']);
            push_right_aligned(&mut out, percent.as_str(), 4);
        },
    }
    out.push('%');
    out.push(' ');
    let megabytes = group_thousands(metrics.ram / MEGABYTE);
    push_right_aligned(&mut out, megabytes.as_str(), 7);
    out.push('M');
    out.push('B');
    assert(out@ == table_text(pid, *metrics));
    out
}

impl Process {
    /// The name for a process whose executable lies at `executable`, if the
    /// system knows it, and which the system reports as `reported`.
    pub fn executable_name(executable: Option<&str>, reported: &str) -> (r: String)
        ensures
            r@ == executable_text(
                match executable {
                    Some(path) => Some(path@),
                    None => None,
                },
                reported@,
            ),
    {
        match executable {
            Some(path) => leaf(path),
            None => String::from_str(reported),
        }
    }

    /// The pid.
    pub fn id(&self) -> (r: u32)
        ensures
            r == self.pid,
    {
        self.pid
    }

    /// The pid of the parent, where the system names one.
    pub fn parent(&self) -> (r: Option<u32>)
        ensures
            r == self.parent,
    {
        self.parent
    }

    /// The title of the column in which `command` is shown.
    pub fn node_header() -> (r: String)
        ensures
            r@ == "executable"@,
    {
        String::from_str("executable")
    }

    /// The number columns of this process, from its own metrics.
    pub fn table_data(&self) -> (r: String)
        ensures
            r@ == table_text(self.pid, self.metrics),
    {
        table_cells(self.pid, &self.metrics)
    }

    /// What this process is shown as.
    pub fn command(&self) -> (r: String)
        ensures
            r@ == command_text(self@),
    {
        if self.arguments.len() == 0 {
            return self.name.clone();
        }
        let mut out = leaf(self.arguments[0].as_str());
        let mut i: usize = 1;
        assert(self@.arguments.skip(1).take(0) == Seq::<Seq<char>>::empty());
        while i < self.arguments.len()
            invariant
                1 <= i <= self.arguments.len(),
                out@ == leaf_of(self@.arguments[0]) + trailing(self@.arguments.skip(1).take(i - 1)),
            decreases self.arguments.len() - i,
        {
            proof {
                let rest = self@.arguments.skip(1);
                assert(rest.take(i as int).drop_last() == rest.take(i - 1));
                assert(rest.take(i as int).last() == self.arguments[i as int]@);
            }
            out.push(' ');
            out.append(self.arguments[i].as_str());
            i += 1;
        }
        assert(self@.arguments.skip(1).take(i - 1) == self@.arguments.skip(1));
        out
    }
}

/// Whether `a` stands before `b` under `key`.
///
/// By pid: the smaller pid first. By processor or memory: the larger
/// reading first, and the smaller pid first among equal readings. Where a
/// processor reading is no number, the two are ordered by pid.
pub open spec fn precedes(a: ProcessView, b: ProcessView, key: SortBy) -> bool {
    match key {
        SortBy::Pid => a.pid < b.pid,
        SortBy::Cpu => match (a.metrics.cpu, b.metrics.cpu) {
            (Some(x), Some(y)) => x > y || (x == y && a.pid < b.pid),
            _ => a.pid < b.pid,
        },
        SortBy::Ram => a.metrics.ram > b.metrics.ram || (a.metrics.ram == b.metrics.ram && a.pid
            < b.pid),
    }
}

/// Whether the processor readings of `a`, `b` and `c` are all numbers, or
/// none of them is.
pub open spec fn alike(a: ProcessView, b: ProcessView, c: ProcessView) -> bool {
    (a.metrics.cpu is Some) == (b.metrics.cpu is Some) && (b.metrics.cpu is Some) == (
    c.metrics.cpu is Some)
}

/// No process stands before itself, of two processes at most one stands
/// before the other, and of two processes with different pids exactly one does.
pub proof fn lemma_precedes_total(a: ProcessView, b: ProcessView, key: SortBy)
    ensures
        !precedes(a, a, key),
        !(precedes(a, b, key) && precedes(b, a, key)),
        a.pid != b.pid ==> precedes(a, b, key) || precedes(b, a, key),
{
}

/// `precedes` is a strict weak order: what stands before something that
/// stands before a third stands before the third, and so it is with standing
/// level. By processor this holds where the three readings are all numbers
/// or all none.
pub proof fn lemma_precedes_transitive(a: ProcessView, b: ProcessView, c: ProcessView, key: SortBy)
    requires
        key == SortBy::Cpu ==> alike(a, b, c),
    ensures
        precedes(a, b, key) && precedes(b, c, key) ==> precedes(a, c, key),
        !precedes(a, b, key) && !precedes(b, a, key) && !precedes(b, c, key) && !precedes(c, b, key)
            ==> !precedes(a, c, key) && !precedes(c, a, key),
{
}

impl Process {
    /// Whether `self` stands before `other` under `sort_by`.
    pub fn stands_before(&self, other: &Process, sort_by: SortBy) -> (r: bool)
        ensures
            r == precedes(self@, other@, sort_by),
    {
        match sort_by {
            SortBy::Pid => self.pid < other.pid,
            SortBy::Cpu => match (self.metrics.cpu, other.metrics.cpu) {
                (Some(x), Some(y)) => x > y || (x == y && self.pid < other.pid),
                _ => self.pid < other.pid,
            },
            SortBy::Ram => self.metrics.ram > other.metrics.ram || (self.metrics.ram
                == other.metrics.ram && self.pid < other.pid),
        }
    }

    /// Where `self` stands against `other` under `sort_by`: `Less` where it
    /// stands before, `Greater` where it stands after, `Equal` where neither.
    pub fn compare(&self, other: &Process, sort_by: SortBy) -> (r: Ordering)
        ensures
            r is Less <==> precedes(self@, other@, sort_by),
            r is Greater <==> precedes(other@, self@, sort_by),
    {
        if self.stands_before(other, sort_by) {
            Ordering::Less
        } else if other.stands_before(self, sort_by) {
            Ordering::Greater
        } else {
            Ordering::Equal
        }
    }
}

/// The column by which the rows of one level are ordered.
#[derive(Debug, Clone, Copy, PartialEq, Eq, Structural)]
pub enum SortBy {
    Pid,
    Cpu,
    Ram,
}

impl SortBy {
    /// The key that follows `self` in the cycle `Pid`, `Cpu`, `Ram`, `Pid`.
    pub open spec fn following(self) -> SortBy {
        match self {
            SortBy::Pid => SortBy::Cpu,
            SortBy::Cpu => SortBy::Ram,
            SortBy::Ram => SortBy::Pid,
        }
    }

    /// The key that `Tab` leads to from `self`.
    pub fn next(self) -> (r: SortBy)
        ensures
            r == self.following(),
    {
        match self {
            SortBy::Pid => SortBy::Cpu,
            SortBy::Cpu => SortBy::Ram,
            SortBy::Ram => SortBy::Pid,
        }
    }

    /// Three steps through the cycle lead back to the key one started from,
    /// and no shorter walk does.
    pub proof fn lemma_next_cycles(self)
        ensures
            self.following().following().following() == self,
            self.following() != self,
            self.following().following() != self,
    {
    }
}

impl Default for SortBy {
    fn default() -> (r: SortBy)
        ensures
            r == SortBy::Pid,
    {
        SortBy::Pid
    }
}

} // verus!
