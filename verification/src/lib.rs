//! The file-system reactor's decisions: the operation table and its routing,
//! directory and tree listings, the elastic worker pool, and the rules that
//! keep every path inside its anchor.
pub mod blocking;
pub mod bytes;
pub mod conn;
pub mod copy;
pub mod cursor;
pub mod dirwalk;
pub mod engine;
pub mod enrich;
pub mod errno;
pub mod file;
pub mod handle;
pub mod host;
pub mod kernel;
pub mod listing;
pub mod names;
pub mod offload;
pub mod offload_pool;
pub mod order;
pub mod pending;
pub mod policy;
pub mod single_flight;
pub mod sort;
pub mod sys;
pub mod table;
pub mod tally;
pub mod text;
pub mod tree;
pub mod tree_order;
pub mod tree_run;
pub mod walk;
pub mod xattrs;
