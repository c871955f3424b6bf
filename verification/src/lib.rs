//! A content-search engine: every line under a set of files and directories
//! that contains a query string, with the rules of the search proved.
//!
//! The library reads nothing itself. What the filesystem returned is handed
//! to it as plain values, and each function states, over the views of
//! those values, exactly what it returns.
//!
//! A run searches its targets one after the other: the files in their
//! order, then the directories in theirs. A directory's hits come sorted by
//! path; nothing is sorted across targets. There are two ways to run it.
//! [`run`] searches files and directories that were read ahead (see
//! [`tree`]). A [`Walk`] asks for each read when the search comes to it, and
//! is proved to find what [`run`] finds.
//!
//! [`threading`] holds the rule of a pool of workers that do the same
//! searches as jobs, and proves that the pool finds the same hits, each
//! once, in whatever order the workers take the jobs. The order of the
//! pool's hits is that in which the jobs end; the pool sorts nothing.

pub mod config;
pub mod hits;
pub mod order;
pub mod target;
pub mod text;
pub mod threading;
pub mod tree;
pub mod walk;

pub use config::{run, Config};
pub use hits::GreprMatch;
pub use target::{Directory, File, SearchTarget};
pub use threading::{Job, ThreadPool, Worker, WorkerState};
pub use tree::{Entry, Node};
pub use walk::Walk;
