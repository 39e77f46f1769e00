//! Agent runtime and type-state builders.
//!
//! [`builder::AgentBuilder`] walks through explicit states: an initial state,
//! a platform-aware state, a disable flow that selects groups of platform
//! skills to drop, and a final state. Every state builds an
//! [`runtime::AgentRuntime`].

pub mod builder;
pub mod disable;
pub mod filter;
pub mod runtime;
pub mod types;
