//! What the overlay knows.

use crate::agent::AgentStatus;
use crate::composer::{ComposerAccess, NativeComposerState};
use crate::model::{Attachment, Turn};
use crate::style::StyledText;
use vstd::prelude::*;

verus! {

/// Something that was asked of the pane and is waited for.
#[derive(Clone, Debug, PartialEq, Eq)]
pub struct PendingAction {
    pub label: String,
    /// When it was asked, in milliseconds of the caller's clock.
    pub since_ms: u64,
}

/// What the status line of the agent says.
#[derive(Clone, Debug, PartialEq, Eq)]
pub struct StatusLine {
    pub agent: String,
    pub model: Option<String>,
    pub cwd: String,
    pub branch: Option<String>,
    pub usage: Option<String>,
}

/// The question of a blocked agent, as far as it could be read.
#[derive(Clone, Debug, PartialEq, Eq)]
pub enum BlockedSurface {
    Missing,
    Unreadable,
    Read(StyledText),
}

/// The question that a look at the pane found.
pub open spec fn question(surface: Option<StyledText>) -> BlockedSurface {
    match surface {
        Some(read) => BlockedSurface::Read(read),
        None => BlockedSurface::Missing,
    }
}

/// The state that the keys, the events and the screen go by.
#[derive(Clone, Debug, PartialEq, Eq)]
pub struct AppState {
    pub turns: Vec<Turn>,
    pub agent_status: AgentStatus,
    pub native_composer: NativeComposerState,
    pub input_enabled: bool,
    pub source_pane_closed: bool,
    /// Since when the agent is at work, in milliseconds of the caller's clock.
    pub working_since_ms: Option<u64>,
    pub draft_attachments: Vec<Attachment>,
    pub pending_attachments: Vec<Attachment>,
    pub pending_action: Option<PendingAction>,
    /// Where a clear of the line that waits for an image goes on to.
    pub clearing_line_to: Option<usize>,
    /// The width the draft was last wrapped to, nothing before the first draw.
    pub composer_width: usize,
    pub scroll_from_bottom: usize,
    pub status_line: Option<StatusLine>,
    pub blocked_surface: BlockedSurface,
    pub transcript_error: Option<String>,
    pub connection_error: Option<String>,
    pub send_error: Option<String>,
    pub interaction_error: Option<String>,
    pub background_error: Option<String>,
}

impl AppState {
    pub open spec fn access(&self) -> ComposerAccess {
        self.native_composer.access_spec(self.draft_attachments@.len() as usize)
    }

    /// Whether the overlay may write into the pane.
    pub fn composer_access(&self) -> (r: ComposerAccess)
        ensures
            r == self.access(),
    {
        self.native_composer.access(self.draft_attachments.len())
    }

    /// Takes in what the agent is doing, and the question it asks.
    pub fn update_blocked_surface(&mut self, status: AgentStatus, surface: Option<StyledText>)
        ensures
            *final(self) == (AppState {
                agent_status: status,
                blocked_surface: question(surface),
                ..*old(self)
            }),
    {
        self.agent_status = status;
        self.blocked_surface = match surface {
            Some(read) => BlockedSurface::Read(read),
            None => BlockedSurface::Missing,
        };
    }
}

impl Default for AppState {
    fn default() -> (r: Self)
        ensures
            r.turns@ == Seq::<Turn>::empty(),
            r.agent_status is Idle,
            r.native_composer is Clear,
            r.input_enabled,
            !r.source_pane_closed,
            r.working_since_ms is None,
            r.draft_attachments@ == Seq::<Attachment>::empty(),
            r.pending_attachments@ == Seq::<Attachment>::empty(),
            r.pending_action is None,
            r.clearing_line_to is None,
            r.composer_width == 0,
            r.scroll_from_bottom == 0,
            r.status_line is None,
            r.blocked_surface is Missing,
            r.transcript_error is None,
            r.connection_error is None,
            r.send_error is None,
            r.interaction_error is None,
            r.background_error is None,
    {
        AppState {
            turns: Vec::new(),
            agent_status: AgentStatus::Idle,
            native_composer: NativeComposerState::Clear,
            input_enabled: true,
            source_pane_closed: false,
            working_since_ms: None,
            draft_attachments: Vec::new(),
            pending_attachments: Vec::new(),
            pending_action: None,
            clearing_line_to: None,
            composer_width: 0,
            scroll_from_bottom: 0,
            status_line: None,
            blocked_surface: BlockedSurface::Missing,
            transcript_error: None,
            connection_error: None,
            send_error: None,
            interaction_error: None,
            background_error: None,
        }
    }
}

}
