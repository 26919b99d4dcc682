//! A content-addressed version-control storage engine: object store, index
//! codec, tree and commit codecs, tree builder, diff engine, and the logic
//! that applies diffs, manages branches and keeps a stash.
pub mod branch;
pub mod builder;
pub mod checkout;
pub mod clock;
pub mod commit;
pub mod diff;
pub mod digest;
pub mod encoding;
pub mod error;
pub mod index;
pub mod object;
pub mod refs;
pub mod stash;
pub mod tree;
pub mod worktree;
