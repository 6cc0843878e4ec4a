//! The mailbox message and its kinds.

use vstd::prelude::*;

verus! {

/// The closed set of kinds a message can have. The kind tells outside
/// consumers how to read the payload; the mailbox only carries it.
#[derive(Clone, Copy, Debug, PartialEq, Eq, Structural)]
pub enum MailboxType {
    JobFailure,
    ApprovalRequest,
    SystemAlert,
}

/// One message delivered to a workspace.
///
/// Timestamps are microseconds since the Unix epoch (UTC). `handled_at` is
/// `None` while the message is pending and holds the handling time once it
/// has been handled.
#[derive(Debug)]
pub struct MailboxMessage {
    pub message_id: i64,
    pub mailbox_id: Option<String>,
    pub workspace_id: String,
    pub mailbox_type: MailboxType,
    pub created_at: i64,
    pub payload: String,
    pub handled_at: Option<i64>,
}

impl MailboxMessage {
    /// Whether the message still waits to be handled.
    pub open spec fn is_pending(&self) -> bool {
        self.handled_at is None
    }

    /// Whether the message lives in the workspace named `ws`.
    pub open spec fn in_workspace(&self, ws: Seq<char>) -> bool {
        self.workspace_id@ == ws
    }

    /// A field-by-field copy of the message.
    pub fn snapshot(&self) -> (r: MailboxMessage)
        ensures
            r == *self,
    {
        let mailbox_id = match &self.mailbox_id {
            Some(m) => Some(m.clone()),
            None => None,
        };
        MailboxMessage {
            message_id: self.message_id,
            mailbox_id,
            workspace_id: self.workspace_id.clone(),
            mailbox_type: self.mailbox_type,
            created_at: self.created_at,
            payload: self.payload.clone(),
            handled_at: self.handled_at,
        }
    }
}

} // verus!
