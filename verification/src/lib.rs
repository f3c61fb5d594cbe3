//! A verified model of a git-backed task store.
//!
//! Tasks, their comments and labels, and a per-task audit trail are kept as
//! JSON blobs in the tree of a dedicated reference of a repository.  This
//! crate verifies the logic of that store: the data model, the JSON codec,
//! the tree and commit transitions of every operation, and the connector
//! registry that matches remote URLs to tracker adapters.  A thin unverified
//! binding applies the same transitions to a real repository.

pub mod codec;
pub mod config;
pub mod connectors;
pub mod decimal;
pub mod laws;
pub mod store;
pub mod task;
pub mod text;

pub use crate::connectors::{
    get_config_options_from_connectors, get_matching_remote_connectors, RemoteConnector,
    RemoteTaskState,
};
pub use crate::store::TaskContext;
pub use crate::task::{Comment, Label, Task, TaskAction};
