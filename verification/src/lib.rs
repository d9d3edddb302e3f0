//! Multi-index containers over a slab store, and the turn-taking rule of
//! the alternating consumers.

pub mod outside;
pub mod order;
pub mod order_store;
pub mod keys;
pub mod errors;
pub mod order_map;
pub mod agent_task;
pub mod task_store;
pub mod agent_map;
pub mod turns;
