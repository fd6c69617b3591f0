//! Decodes V8 heap snapshots and analyzes the object graph they encode.
//!
//! A snapshot is a self-describing, column-oriented JSON document: its meta
//! header prescribes the field layout of the flat `nodes` and `edges`
//! arrays. The library interprets that header (`meta`), decodes the arrays
//! into typed records and edge rows (`graph`), walks the graph breadth-first
//! from the synthetic root to assign each reachable node a distance and an
//! additive retain-size approximation (`bfs`), and materializes `node`,
//! `edge` and `location` table rows (`rows`, `jsonio`). The properties the
//! tables satisfy are stated and proved in `laws`.
//!
//! Reading the snapshot file and persisting the rows into a SQL store are
//! left to the embedding program.

pub mod bfs;
pub mod dbname;
pub mod graph;
pub mod jsonio;
pub mod laws;
pub mod meta;
pub mod rows;
pub mod snapshot;
pub mod text;
