//! Acknowledgment bookkeeping and the majority rule.
//!
//! The tracker remembers, for every proposal identifier, which peers have
//! acknowledged it. Its model is a map from identifiers to sets of peer
//! identities: recording is set insertion, so acknowledging twice counts
//! once, and the order in which acknowledgments arrive does not matter.

use vstd::prelude::*;
use vstd::hash_map::StringHashMap;
use std::collections::HashSet;

verus! {

broadcast use vstd::std_specs::hash::group_hash_axioms;

/// The model of a tracker: the peers that have acknowledged each proposal.
pub type AckIndex = Map<Seq<char>, Set<u64>>;

/// The peers that have acknowledged `proposal_id`; none where the proposal
/// is unknown.
pub open spec fn acknowledged(index: AckIndex, proposal_id: Seq<char>) -> Set<u64> {
    if index.contains_key(proposal_id) {
        index[proposal_id]
    } else {
        Set::empty()
    }
}

/// The index after `sender` has acknowledged `proposal_id`.
pub open spec fn recorded(index: AckIndex, proposal_id: Seq<char>, sender: u64) -> AckIndex {
    index.insert(proposal_id, acknowledged(index, proposal_id).insert(sender))
}

/// The index after each of `senders` has acknowledged `proposal_id`, one
/// after the other.
pub open spec fn recorded_all(index: AckIndex, proposal_id: Seq<char>, senders: Seq<u64>)
    -> AckIndex
    decreases senders.len(),
{
    if senders.len() == 0 {
        index
    } else {
        recorded(recorded_all(index, proposal_id, senders.drop_last()), proposal_id, senders.last())
    }
}

/// Every proposal of the index has been acknowledged by finitely many
/// peers. This holds of the model of every tracker.
pub open spec fn finite_index(index: AckIndex) -> bool {
    forall|proposal_id: Seq<char>| #[trigger]
        index.contains_key(proposal_id) ==> index[proposal_id].finite()
}

/// The number of acknowledgments that amounts to a majority of
/// `peer_count` peers.
pub open spec fn spec_majority_threshold(peer_count: nat) -> nat {
    peer_count / 2 + 1
}

/// Whether `count` acknowledgments are a majority of `peer_count` peers.
pub open spec fn spec_has_quorum(count: nat, peer_count: nat) -> bool {
    count >= spec_majority_threshold(peer_count)
}

/// Computes the majority threshold for `peer_count` peers: half of them,
/// rounded down, and one more.
pub fn majority_threshold(peer_count: usize) -> (threshold: usize)
    ensures
        threshold == spec_majority_threshold(peer_count as nat),
        threshold == peer_count / 2 + 1,
        2 * threshold > peer_count,
        peer_count >= 1 ==> threshold <= peer_count,
{
    peer_count / 2 + 1
}

/// Tells whether `count` acknowledgments are a majority of `peer_count`
/// peers.
pub fn has_quorum(count: usize, peer_count: usize) -> (reached: bool)
    ensures
        reached == spec_has_quorum(count as nat, peer_count as nat),
{
    count >= majority_threshold(peer_count)
}

/// Remembers which peers have acknowledged which proposal.
///
/// Entries appear with the first acknowledgment of a proposal and are
/// never removed. Callers that share a tracker between tasks keep it behind
/// their own lock and lend it out for the duration of one call.
pub struct AckTracker {
    slot_of: StringHashMap<usize>,
    senders: Vec<HashSet<u64>>,
}

impl View for AckTracker {
    type V = AckIndex;

    closed spec fn view(&self) -> AckIndex {
        Map::new(
            |proposal_id: Seq<char>| self.slot_of@.contains_key(proposal_id),
            |proposal_id: Seq<char>| self.senders@[self.slot_of@[proposal_id] as int]@,
        )
    }
}

impl AckTracker {
    /// The invariant of a tracker: every known proposal has a slot of its
    /// own, and every slot holds finitely many senders. [`AckTracker::new`]
    /// establishes it and every method keeps it.
    pub closed spec fn well_formed(&self) -> bool {
        &&& forall|id: Seq<char>| #[trigger]
            self.slot_of@.contains_key(id) ==> self.slot_of@[id] < self.senders@.len()
        &&& forall|a: Seq<char>, b: Seq<char>|
            #![trigger self.slot_of@[a], self.slot_of@[b]]
            self.slot_of@.contains_key(a) && self.slot_of@.contains_key(b) && a != b
                ==> self.slot_of@[a] != self.slot_of@[b]
        &&& forall|i: int| 0 <= i < self.senders@.len() ==> (#[trigger] self.senders@[i])@.finite()
    }

    /// Creates a tracker that knows of no proposal.
    pub fn new() -> (tracker: AckTracker)
        ensures
            tracker.well_formed(),
            tracker@ == Map::<Seq<char>, Set<u64>>::empty(),
    {
        let tracker = AckTracker { slot_of: StringHashMap::new(), senders: Vec::new() };
        assert(tracker@ =~= Map::<Seq<char>, Set<u64>>::empty());
        tracker
    }

    /// Records that `sender` has acknowledged `proposal_id` and tells
    /// whether that is news. Recording the same sender again changes
    /// nothing.
    pub fn record(&mut self, proposal_id: &str, sender: u64) -> (fresh: bool)
        requires
            old(self).well_formed(),
        ensures
            final(self).well_formed(),
            final(self)@ == recorded(old(self)@, proposal_id@, sender),
            fresh == !acknowledged(old(self)@, proposal_id@).contains(sender),
            finite_index(final(self)@),
    {
        let known: Option<usize> = match self.slot_of.get(proposal_id) {
            Some(slot) => Some(*slot),
            None => None,
        };
        match known {
            Some(slot) => {
                let fresh = self.senders[slot].insert(sender);
                assert(self@ =~= recorded(old(self)@, proposal_id@, sender));
                fresh
            },
            None => {
                let mut first: HashSet<u64> = HashSet::new();
                first.insert(sender);
                let slot = self.senders.len();
                self.senders.push(first);
                self.slot_of.insert(proposal_id.to_owned(), slot);
                assert(self@ =~= recorded(old(self)@, proposal_id@, sender));
                true
            },
        }
    }

    /// Counts the peers that have acknowledged `proposal_id`: none where
    /// the proposal is unknown.
    pub fn count(&self, proposal_id: &str) -> (count: usize)
        requires
            self.well_formed(),
        ensures
            count == acknowledged(self@, proposal_id@).len(),
            finite_index(self@),
    {
        match self.slot_of.get(proposal_id) {
            Some(slot) => self.senders[*slot].len(),
            None => 0,
        }
    }
}


/// Recording one sender keeps every set of the index finite.
pub proof fn lemma_recorded_finite(index: AckIndex, proposal_id: Seq<char>, sender: u64)
    requires
        finite_index(index),
    ensures
        finite_index(recorded(index, proposal_id, sender)),
{
}

/// Acknowledging is idempotent: a sender that is recorded a second time
/// for the same proposal leaves the index, and with it the count, as the
/// first recording left them.
pub proof fn lemma_record_idempotent(index: AckIndex, proposal_id: Seq<char>, sender: u64)
    ensures
        recorded(recorded(index, proposal_id, sender), proposal_id, sender) == recorded(
            index,
            proposal_id,
            sender,
        ),
        acknowledged(
            recorded(recorded(index, proposal_id, sender), proposal_id, sender),
            proposal_id,
        ).len() == acknowledged(recorded(index, proposal_id, sender), proposal_id).len(),
{
    let once = recorded(index, proposal_id, sender);
    let twice = recorded(once, proposal_id, sender);
    assert(acknowledged(once, proposal_id).insert(sender) == acknowledged(once, proposal_id));
    assert(twice == once);
}

/// Recording a sender that has already acknowledged the proposal changes
/// nothing.
pub proof fn lemma_record_known_sender(index: AckIndex, proposal_id: Seq<char>, sender: u64)
    requires
        acknowledged(index, proposal_id).contains(sender),
    ensures
        recorded(index, proposal_id, sender) == index,
{
    assert(acknowledged(index, proposal_id).insert(sender) == acknowledged(index, proposal_id));
    assert(recorded(index, proposal_id, sender) == index);
}

/// Recording a sender that has not yet acknowledged the proposal raises
/// its count by one and touches no other proposal.
pub proof fn lemma_record_new_sender(index: AckIndex, proposal_id: Seq<char>, sender: u64)
    requires
        finite_index(index),
        !acknowledged(index, proposal_id).contains(sender),
    ensures
        acknowledged(recorded(index, proposal_id, sender), proposal_id).len() == acknowledged(
            index,
            proposal_id,
        ).len() + 1,
        forall|other: Seq<char>|
            other != proposal_id ==> acknowledged(
                #[trigger] recorded(index, proposal_id, sender),
                other,
            ) == acknowledged(index, other),
{
}

/// Recording a sequence of senders adds exactly the set of those senders
/// to the proposal, whatever their order and however often each occurs,
/// and touches no other proposal.
pub proof fn lemma_record_all(index: AckIndex, proposal_id: Seq<char>, senders: Seq<u64>)
    ensures
        acknowledged(recorded_all(index, proposal_id, senders), proposal_id) == acknowledged(
            index,
            proposal_id,
        ).union(senders.to_set()),
        senders.len() > 0 ==> recorded_all(index, proposal_id, senders) == index.insert(
            proposal_id,
            acknowledged(index, proposal_id).union(senders.to_set()),
        ),
        forall|other: Seq<char>|
            other != proposal_id ==> acknowledged(
                #[trigger] recorded_all(index, proposal_id, senders),
                other,
            ) == acknowledged(index, other),
    decreases senders.len(),
{
    let before = acknowledged(index, proposal_id);
    if senders.len() == 0 {
        assert(senders.to_set() == Set::<u64>::empty());
        assert(before.union(senders.to_set()) == before);
    } else {
        let head = senders.drop_last();
        lemma_record_all(index, proposal_id, head);
        head.lemma_push_to_set_commute(senders.last());
        assert(head.push(senders.last()) == senders);
        assert(before.union(head.to_set()).insert(senders.last()) == before.union(
            senders.to_set(),
        ));
        let earlier = recorded_all(index, proposal_id, head);
        assert(recorded(earlier, proposal_id, senders.last()) == index.insert(
            proposal_id,
            before.union(senders.to_set()),
        ));
    }
}

/// Acknowledgments from distinct senders all land in the tracker: when
/// `senders` are pairwise distinct, recording them, in the order in which
/// they happen to arrive, leaves a proposal that had no acknowledgments
/// with exactly as many as there are senders. Where the proposal had some,
/// and none from these senders, their number is added.
pub proof fn lemma_distinct_senders_all_counted(
    index: AckIndex,
    proposal_id: Seq<char>,
    senders: Seq<u64>,
)
    requires
        finite_index(index),
        senders.no_duplicates(),
    ensures
        acknowledged(index, proposal_id) == Set::<u64>::empty() ==> acknowledged(
            recorded_all(index, proposal_id, senders),
            proposal_id,
        ).len() == senders.len(),
        acknowledged(index, proposal_id).disjoint(senders.to_set()) ==> acknowledged(
            recorded_all(index, proposal_id, senders),
            proposal_id,
        ).len() == acknowledged(index, proposal_id).len() + senders.len(),
{
    lemma_record_all(index, proposal_id, senders);
    senders.unique_seq_to_set();
    vstd::seq_lib::seq_to_set_is_finite(senders);
    vstd::set_lib::lemma_set_disjoint_lens(acknowledged(index, proposal_id), senders.to_set());
}

/// The order in which acknowledgments arrive does not matter: two
/// sequences of the same senders leave the same index.
pub proof fn lemma_record_order_irrelevant(
    index: AckIndex,
    proposal_id: Seq<char>,
    first: Seq<u64>,
    second: Seq<u64>,
)
    requires
        first.to_set() == second.to_set(),
    ensures
        recorded_all(index, proposal_id, first) == recorded_all(index, proposal_id, second),
{
    lemma_record_all(index, proposal_id, first);
    lemma_record_all(index, proposal_id, second);
    if first.len() == 0 {
        if second.len() > 0 {
            assert(second.to_set().contains(second[0]));
            assert(first.to_set().contains(second[0]));
        }
    } else if second.len() == 0 {
        assert(first.to_set().contains(first[0]));
        assert(second.to_set().contains(first[0]));
    }
}

/// For every number of peers the majority threshold is half of them,
/// rounded down, and one more. It is the least count that exceeds half of
/// the peers, so a count is a quorum exactly when twice the count exceeds
/// the number of peers; and a single peer is a majority of one.
pub proof fn lemma_majority_threshold(peer_count: nat)
    ensures
        spec_majority_threshold(peer_count) == peer_count / 2 + 1,
        2 * spec_majority_threshold(peer_count) > peer_count,
        2 * (spec_majority_threshold(peer_count) - 1) <= peer_count,
        peer_count >= 1 ==> spec_majority_threshold(peer_count) <= peer_count,
        spec_majority_threshold(1) == 1,
        forall|count: nat| #[trigger]
            spec_has_quorum(count, peer_count) <==> 2 * count > peer_count,
{
}

} // verus!
