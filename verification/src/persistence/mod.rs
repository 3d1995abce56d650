//! Event sourcing: an actor's state is what its stored events amount to.

pub mod in_memory_store;
pub mod recovery;
pub mod store;
