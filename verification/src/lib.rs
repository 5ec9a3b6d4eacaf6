//! A read-only file system view, verified: the tree of nodes that is shown, the
//! requests that the view answers, and the messages by which an unprivileged
//! process obtains backing files from a privileged one.

pub mod attr;
pub mod backing_id;
pub mod filesystem;
pub mod filesystem_laws;
pub mod filter;
pub mod handle_laws;
pub mod handles;
pub mod ipc;
pub mod order;
pub mod parse;
pub mod path;
pub mod tree;
pub mod tree_laws;
pub mod whitelist;
