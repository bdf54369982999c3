//! The messages that nodes exchange.

use vstd::prelude::*;
use vstd::std_specs::cmp::PartialEqSpecImpl;
use crate::state::State;

verus! {

/// The role a message plays in the exchange.
#[derive(Debug, Clone, Copy, PartialEq, Eq, Hash, Structural)]
pub enum MessageType {
    /// A node proposes a state change.
    Proposal,
    /// A node acknowledges a proposal it has received.
    Acknowledgment,
    /// The proposer announces that a majority has acknowledged.
    Commit,
}

/// A message exchanged between nodes.
#[derive(Debug)]
pub struct Message {
    /// The identity of the node that sent the message.
    pub sender_id: u64,
    /// The role of the message.
    pub message_type: MessageType,
    /// The state that is proposed, acknowledged or committed.
    pub proposed_state: State,
    /// The identifier that ties a proposal to its acknowledgments and commit.
    pub proposal_id: String,
}

/// What a [`Message`] says: its fields, with the identifier as a sequence
/// of characters.
pub struct MessageView {
    pub sender_id: u64,
    pub message_type: MessageType,
    pub proposed_state: State,
    pub proposal_id: Seq<char>,
}

impl View for Message {
    type V = MessageView;

    open spec fn view(&self) -> MessageView {
        MessageView {
            sender_id: self.sender_id,
            message_type: self.message_type,
            proposed_state: self.proposed_state,
            proposal_id: self.proposal_id@,
        }
    }
}

impl Clone for Message {
    fn clone(&self) -> (copy: Message)
        ensures
            copy@ == self@,
    {
        Message {
            sender_id: self.sender_id,
            message_type: self.message_type,
            proposed_state: self.proposed_state,
            proposal_id: self.proposal_id.clone(),
        }
    }
}

impl PartialEq for Message {
    fn eq(&self, other: &Message) -> (equal: bool) {
        self.sender_id == other.sender_id && self.message_type == other.message_type
            && self.proposed_state == other.proposed_state && self.proposal_id
            == other.proposal_id
    }
}

impl PartialEqSpecImpl for Message {
    open spec fn obeys_eq_spec() -> bool {
        true
    }

    open spec fn eq_spec(&self, other: &Message) -> bool {
        self@ == other@
    }
}

} // verus!
