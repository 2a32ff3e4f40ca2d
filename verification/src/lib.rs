//! A disk scanner that tells the truth about APFS.
//!
//! "How big is this folder" has no single answer where clones make several files
//! share one set of blocks, snapshots pin blocks that no file refers to, sparse
//! files claim space that they never took, and files evicted to iCloud have a size
//! but take nothing. The library keeps these apart.
//!
//! It decides and computes; it does no input or output. A program around it reads
//! directories, the mount table and the privacy controls, hands in what it has
//! read, and gets back what to do next: see [`walk::Walk`]. A finished scan is a
//! [`ScanResult`], from which [`report`] and [`ffi`] answer questions.
//!
//! What holds of the library as a whole is stated and proved in [`laws`], and what its
//! answers mean in terms of what it is given in [`meaning`].

pub mod ffi;
pub mod foreign;
pub mod laws;
pub mod meaning;
pub mod model;
pub mod numbers;
pub mod order;
pub mod paths;
pub mod plan;
pub mod report;
pub mod scan;
pub mod sums;
pub mod sys;
pub mod text;
pub mod treemap;
pub mod walk;

pub use model::{Kind, Node, NodeId, Sizes, State, Tree};
pub use scan::{Options, Progress, ScanResult, Stats};
pub use sys::tcc::{full_disk_access, Access};
pub use walk::Walk;
