//! The agent task kept by `MultiIndexAgentTaskMap`.

use vstd::prelude::*;
use std::sync::Arc;

verus! {

/// An activity handed to an agent: a counter.
#[derive(Debug)]
pub struct Activity(pub usize);

/// The shared, lock-guarded state of an agent.
pub type AgentState = Arc<tokio::sync::RwLock<String>>;

/// The channel on which an agent receives activities.
pub type ActivitySender = tokio::sync::mpsc::Sender<Activity>;

/// The one-shot channel that stops an agent's task.
pub type StopSender = Arc<tokio::sync::oneshot::Sender<anyhow::Result<()>>>;

/// A task of an agent: `task_id` is unique, `agent_id` is shared by all the
/// tasks of one agent; the three handles are carried along and never
/// looked at by the map.
#[derive(Debug)]
pub struct AgentTask {
    pub agent_id: u64,
    pub task_id: u64,
    pub agent_state: AgentState,
    pub sender: ActivitySender,
    pub stop_sender: StopSender,
}

impl AgentTask {
    /// The same task with its three handles replaced.
    pub open spec fn with_handles(self, a: AgentState, s: ActivitySender, t: StopSender) -> AgentTask {
        AgentTask { agent_state: a, sender: s, stop_sender: t, ..self }
    }
}

} // verus!
