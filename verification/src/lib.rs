//! Retention and space-reclamation engine for versioned backup snapshots
//! of a game-server data tree: snapshot-name parsing and rendering, the
//! ordered snapshot catalog, symlink-aware size accounting, the eviction
//! policy that protects boundary snapshots, the compression-amortization
//! loop, and the make-room step that runs before a new snapshot is taken.

pub mod amortizer;
pub mod catalog;
pub mod errors;
pub mod name;
pub mod orchestrator;
pub mod paths;
pub mod policy;
pub mod sizing;
pub mod timefmt;
