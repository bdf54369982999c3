//! The protocol engine of one node.

use vstd::prelude::*;
use std::collections::HashMap;
use crate::message::Message;
use crate::message::MessageType;
use crate::message::MessageView;
use crate::proposal_id::fresh_proposal_id;
use crate::proposal_id::is_uuid_text;
use crate::quorum::acknowledged;
use crate::quorum::has_quorum;
use crate::quorum::recorded;
use crate::quorum::spec_has_quorum;
use crate::quorum::AckTracker;
use crate::state::State;
use crate::state::StateStore;
use crate::wire::decode;
use crate::wire::encode;
use crate::wire::spec_decode;
use crate::wire::spec_encode;

verus! {

broadcast use vstd::std_specs::hash::group_hash_axioms;

/// One encoded message and the address it has to be carried to.
#[derive(Debug)]
pub struct Transmission {
    /// Where to connect.
    pub address: String,
    /// What to write once connected.
    pub payload: Vec<u8>,
}

/// A proposal that has been given its identifier and prepared for every
/// peer.
#[derive(Debug)]
pub struct Proposed {
    /// The identifier minted for the proposal.
    pub proposal_id: String,
    /// The proposal, once for every peer.
    pub transmissions: Vec<Transmission>,
}

/// What a proposer does after one look at the acknowledgments.
#[derive(Debug)]
pub enum WaitStep {
    /// No majority yet: look again after [`POLL_INTERVAL_MILLIS`].
    Pending,
    /// A majority has acknowledged: carry the commit to every peer, and
    /// the wait is over.
    Committed(Vec<Transmission>),
}

/// What a listener does with one read from a connection.
#[derive(Debug)]
pub enum Reception {
    /// The read was empty: the peer has closed the connection.
    Closed,
    /// The bytes were one message: hand it to the router.
    Forward(Message),
    /// The bytes were no message: drop them and go on reading.
    Discard,
}

/// How long a proposer lets pass between two looks at the acknowledgments,
/// in milliseconds.
pub const POLL_INTERVAL_MILLIS: u64 = 100;

/// How many bytes a listener asks for in one read. A message that is
/// longer does not arrive in one piece and is dropped.
pub const READ_BUFFER_SIZE: usize = 1024;

/// One node: its identity, the peers it talks to and the address it
/// listens on. All three are fixed when the node is made.
pub struct Node {
    /// The identity of this node.
    pub id: u64,
    /// The address of every peer, by the peer's identity.
    pub peers: HashMap<u64, String>,
    /// The address this node listens on.
    pub address: String,
}

/// Whether `sent` carries `payload` to every peer of the table exactly
/// once: there is an order of the peers, each occurring once, in which
/// the transmissions go out.
pub open spec fn reaches_every_peer(
    sent: Seq<Transmission>,
    peers: Map<u64, String>,
    payload: Seq<u8>,
) -> bool {
    exists|order: Seq<u64>|
        #![trigger order.no_duplicates()]
        {
            &&& order.no_duplicates()
            &&& order.to_set() == peers.dom()
            &&& sent.len() == order.len()
            &&& forall|i: int|
                0 <= i < sent.len() ==> (#[trigger] sent[i]).address@ == peers[order[i]]@
                    && sent[i].payload@ == payload
        }
}

impl Node {
    /// The proposal that this node makes of `new_state` under
    /// `proposal_id`.
    pub open spec fn proposal(&self, new_state: State, proposal_id: Seq<char>) -> MessageView {
        MessageView {
            sender_id: self.id,
            message_type: MessageType::Proposal,
            proposed_state: new_state,
            proposal_id,
        }
    }

    /// The acknowledgment with which this node answers `proposal`.
    pub open spec fn acknowledgment(&self, proposal: MessageView) -> MessageView {
        MessageView {
            sender_id: self.id,
            message_type: MessageType::Acknowledgment,
            proposed_state: proposal.proposed_state,
            proposal_id: proposal.proposal_id,
        }
    }

    /// The commit that this node announces for `proposal_id`. It names
    /// the state `Running`, whatever state was proposed.
    pub open spec fn commit(&self, proposal_id: Seq<char>) -> MessageView {
        MessageView {
            sender_id: self.id,
            message_type: MessageType::Commit,
            proposed_state: State::Running,
            proposal_id,
        }
    }

    /// Whether this node can answer `message`: a proposal is answered
    /// at the address of its sender, who therefore has to be a peer.
    pub open spec fn can_answer(&self, message: MessageView) -> bool {
        message.message_type == MessageType::Proposal ==> self.peers@.contains_key(
            message.sender_id,
        )
    }

    /// Prepares `message` for `address`: the transmission carries the
    /// encoding of the message to that address.
    pub fn send_message(&self, message: &Message, address: &str) -> (out: Transmission)
        ensures
            out.address@ == address@,
            out.payload@ == spec_encode(message@),
    {
        Transmission { address: address.to_owned(), payload: encode(message) }
    }

    /// Prepares `message` for every peer, once each, in no particular
    /// order.
    pub fn broadcast(&self, message: &Message) -> (sent: Vec<Transmission>)
        ensures
            reaches_every_peer(sent@, self.peers@, spec_encode(message@)),
            sent@.len() == self.peers@.len(),
    {
        let mut sent: Vec<Transmission> = Vec::new();
        let ghost mut order: Seq<u64> = Seq::empty();
        for peer in it: self.peers.keys()
            invariant
                it.seq().unref().to_set() == self.peers@.dom(),
                it.seq().no_duplicates(),
                it.seq().len() == self.peers@.len(),
                sent@.len() == it.index(),
                order == it.seq().unref().take(it.index() as int),
                it.index() == it.seq().len() ==> order == it.seq().unref(),
                forall|i: int|
                    0 <= i < sent@.len() ==> (#[trigger] sent@[i]).address@
                        == self.peers@[order[i]]@ && sent@[i].payload@ == spec_encode(message@),
        {
            match self.peers.get(peer) {
                Some(address) => {
                    let transmission = self.send_message(message, address.as_str());
                    sent.push(transmission);
                    proof {
                        order = order.push(*peer);
                        assert(order == it.seq().unref().take(it.index() + 1));
                    }
                },
                None => {
                    assert(false);
                },
            }
        }
        proof {
            assert(order.no_duplicates());
            assert(order.to_set() == self.peers@.dom());
        }
        sent
    }

    /// Prepares the proposal of `new_state` under the identifier
    /// `proposal_id` for every peer.
    pub fn propose(&self, new_state: State, proposal_id: &str) -> (sent: Vec<Transmission>)
        ensures
            reaches_every_peer(
                sent@,
                self.peers@,
                spec_encode(self.proposal(new_state, proposal_id@)),
            ),
            sent@.len() == self.peers@.len(),
    {
        let message = Message {
            sender_id: self.id,
            message_type: MessageType::Proposal,
            proposed_state: new_state,
            proposal_id: proposal_id.to_owned(),
        };
        self.broadcast(&message)
    }

    /// Mints a fresh identifier and prepares the proposal of `new_state`
    /// under it for every peer. Nothing is waited for: whether a
    /// transmission arrives is the carrier's business.
    pub fn broadcast_proposal(&self, new_state: State) -> (proposed: Proposed)
        ensures
            is_uuid_text(proposed.proposal_id@),
            reaches_every_peer(
                proposed.transmissions@,
                self.peers@,
                spec_encode(self.proposal(new_state, proposed.proposal_id@)),
            ),
            proposed.transmissions@.len() == self.peers@.len(),
    {
        let proposal_id = fresh_proposal_id();
        let transmissions = self.propose(new_state, proposal_id.as_str());
        Proposed { proposal_id, transmissions }
    }

    /// Looks once at the acknowledgments of `proposal_id`. Where they are
    /// a majority of the peers, the commit is prepared for every peer and
    /// the wait is over; where they are not, the caller looks again
    /// later, for as long as it takes.
    pub fn wait_for_acknowledgments(
        &self,
        proposal_id: &str,
        acknowledgments: &AckTracker,
    ) -> (step: WaitStep)
        requires
            acknowledgments.well_formed(),
        ensures
            match step {
                WaitStep::Pending => !spec_has_quorum(
                    acknowledged(acknowledgments@, proposal_id@).len(),
                    self.peers@.len(),
                ),
                WaitStep::Committed(sent) => {
                    &&& spec_has_quorum(
                        acknowledged(acknowledgments@, proposal_id@).len(),
                        self.peers@.len(),
                    )
                    &&& reaches_every_peer(
                        sent@,
                        self.peers@,
                        spec_encode(self.commit(proposal_id@)),
                    )
                    &&& sent@.len() == self.peers@.len()
                },
            },
    {
        let count = acknowledgments.count(proposal_id);
        if has_quorum(count, self.peers.len()) {
            let message = Message {
                sender_id: self.id,
                message_type: MessageType::Commit,
                proposed_state: State::Running,
                proposal_id: proposal_id.to_owned(),
            };
            WaitStep::Committed(self.broadcast(&message))
        } else {
            WaitStep::Pending
        }
    }

    /// Tells whether this node can answer `message`.
    pub fn knows_sender(&self, message: &Message) -> (known: bool)
        ensures
            known == self.can_answer(message@),
    {
        match message.message_type {
            MessageType::Proposal => self.peers.contains_key(&message.sender_id),
            _ => true,
        }
    }

    /// Routes one incoming message.
    ///
    /// A proposal is answered with an acknowledgment to its sender, and
    /// its state replaces the one in `state` at once, whatever that was
    /// and whether or not a majority will ever acknowledge. An
    /// acknowledgment is recorded in `acknowledgments`. A commit changes
    /// nothing.
    pub fn handle_incoming_messages(
        &self,
        message: Message,
        state: &mut StateStore,
        acknowledgments: &mut AckTracker,
    ) -> (reply: Option<Transmission>)
        requires
            old(acknowledgments).well_formed(),
            self.can_answer(message@),
        ensures
            final(acknowledgments).well_formed(),
            match message.message_type {
                MessageType::Proposal => {
                    &&& final(state)@ == message.proposed_state
                    &&& final(acknowledgments)@ == old(acknowledgments)@
                    &&& reply matches Some(answer)
                    &&& answer.address@ == self.peers@[message.sender_id]@
                    &&& answer.payload@ == spec_encode(self.acknowledgment(message@))
                },
                MessageType::Acknowledgment => {
                    &&& final(state)@ == old(state)@
                    &&& final(acknowledgments)@ == recorded(
                        old(acknowledgments)@,
                        message.proposal_id@,
                        message.sender_id,
                    )
                    &&& reply is None
                },
                MessageType::Commit => {
                    &&& final(state)@ == old(state)@
                    &&& final(acknowledgments)@ == old(acknowledgments)@
                    &&& reply is None
                },
            },
    {
        match message.message_type {
            MessageType::Proposal => {
                let answer = Message {
                    sender_id: self.id,
                    message_type: MessageType::Acknowledgment,
                    proposed_state: message.proposed_state,
                    proposal_id: message.proposal_id,
                };
                let reply = match self.peers.get(&message.sender_id) {
                    Some(address) => Some(self.send_message(&answer, address.as_str())),
                    None => None,
                };
                state.set(message.proposed_state);
                reply
            },
            MessageType::Acknowledgment => {
                acknowledgments.record(message.proposal_id.as_str(), message.sender_id);
                None
            },
            MessageType::Commit => None,
        }
    }

    /// Interprets one read from an inbound connection.
    ///
    /// An empty read means that the peer has closed the connection. Any
    /// other read is taken to hold exactly one message: if it decodes,
    /// the message goes to the router, and if it does not, the bytes are
    /// dropped and the connection stays open.
    pub fn listen(&self, chunk: &[u8]) -> (reception: Reception)
        ensures
            match reception {
                Reception::Closed => chunk@.len() == 0,
                Reception::Forward(message) => chunk@.len() > 0 && spec_decode(chunk@) == Some(
                    message@,
                ),
                Reception::Discard => chunk@.len() > 0 && spec_decode(chunk@) is None,
            },
    {
        if chunk.len() == 0 {
            Reception::Closed
        } else {
            match decode(chunk) {
                Some(message) => Reception::Forward(message),
                None => Reception::Discard,
            }
        }
    }
}

} // verus!
