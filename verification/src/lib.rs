//! A live process tree: snapshots of processes are arranged into a forest by
//! their parent links, ordered, filtered by a pattern and laid out as rows,
//! while a small state machine follows the keyboard.
//!
//! # The parts
//!
//! * [`process`]: one process of a snapshot, its metrics, how two processes
//!   are ordered under a sort key, and how a process is written out.
//! * [`tree`]: the forest of a snapshot. Every process gets one node, under
//!   the node of its parent, and every node carries the total of what it and
//!   all below it use.
//! * [`placement`]: that the forest holds every process once.
//! * [`totals`]: that the totals are plain sums, whatever the shape of the trees.
//! * [`sorting`]: the forest with every level in the order of a sort key.
//! * [`rows`]: the header, and the forest as rows under a pattern.
//! * [`pattern`]: the pattern, which matches nothing while it does not compile.
//! * [`porc_app`]: the state between two events, and what a key or a tick does to it.
//! * [`text`]: numbers and padding as text.
//!
//! # What is decided here
//!
//! * Processor use is held as whole hundredths of a percent, and as `None`
//!   where the reading is no number. Sums stop at the largest `u64` instead
//!   of wrapping round.
//! * A node keeps its process with the process's own metrics, and beside
//!   it the total of the node and everything below. Rows are ordered by the
//!   own metrics and show the totals.
//! * A process whose line of parents runs in a circle has no place below a
//!   root. It is made a root itself, so that no process is lost.
//! * With no row to stand on, the cursor is taken away.
//!
//! # What is taken on trust
//!
//! The proofs end where the library calls code that it does not hold:
//! compiling and matching patterns (`regex`), grouping digits (`num_format`),
//! the last component of a path (`std::path`), and the end of a `String`
//! (`push` and `pop`). Each such call stands behind one item with a contract,
//! in [`pattern`], [`text`] and [`process`].

pub mod pattern;
pub mod placement;
pub mod porc_app;
pub mod process;
pub mod rows;
pub mod sorting;
pub mod text;
pub mod totals;
pub mod tree;
