//! The agents whose panes are read.

pub mod claude;
pub mod json;
pub mod time;

use vstd::prelude::*;

verus! {

#[derive(Clone, Copy, Debug, PartialEq, Eq, Hash, Structural)]
pub enum AgentKind {
    Codex,
    Claude,
}

/// What an agent is doing.
#[derive(Clone, Copy, Debug, PartialEq, Eq, Hash, Structural)]
pub enum AgentStatus {
    Idle,
    Working,
    Blocked,
    Done,
}

impl AgentStatus {
    pub open spec fn working(self) -> bool {
        self is Working
    }

    /// Whether the agent is at work.
    pub fn is_working(self) -> (r: bool)
        ensures
            r == self.working(),
    {
        match self {
            AgentStatus::Working => true,
            _ => false,
        }
    }

    pub open spec fn turn_open(self) -> bool {
        self is Working || self is Blocked
    }

    /// Whether an answer can still change: the agent works, or waits for a reply
    /// to go on.
    pub fn keeps_turn_open(self) -> (r: bool)
        ensures
            r == self.turn_open(),
    {
        match self {
            AgentStatus::Working | AgentStatus::Blocked => true,
            _ => false,
        }
    }
}

/// Which agent is in the source pane, and what it is doing.
#[derive(Clone, Debug, PartialEq, Eq)]
pub struct AgentIdentity {
    pub kind: AgentKind,
    pub pane_id: String,
    pub session_id: String,
    pub cwd: String,
    pub status: AgentStatus,
}

pub ghost struct IdentityView {
    pub kind: AgentKind,
    pub pane_id: Seq<char>,
    pub session_id: Seq<char>,
    pub cwd: Seq<char>,
    pub status: AgentStatus,
}

impl View for AgentIdentity {
    type V = IdentityView;

    open spec fn view(&self) -> IdentityView {
        IdentityView {
            kind: self.kind,
            pane_id: self.pane_id@,
            session_id: self.session_id@,
            cwd: self.cwd@,
            status: self.status,
        }
    }
}

}
