//! A platform-agnostic reconciliation core: keyed diffing of element trees
//! into command streams, positional hook cells, weak back-references to
//! instances, scoped context values, an effect scheduler and the policy by
//! which commands are flushed to the platform.

pub mod element;
pub mod compositor;
pub mod reconciler;
pub mod tree;
pub mod topology;
pub mod hooks;
pub mod instance;
pub mod evloop;
pub mod context;
pub mod channel;
pub mod manager;
pub mod render;
