//! File integrity monitoring: the hashing of file contents, the comparison of
//! a scan with the recorded state, the writes that bring the records up to
//! date, and the report of what changed.
pub mod comparator;
pub mod db;
pub mod hasher;
pub mod report;
pub mod scanner;
pub mod symmetry;
pub mod sync;
