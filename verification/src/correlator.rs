//! The reply correlator: which requests are in flight, which replies wait to
//! be matched, and what becomes of a slot when it is resolved.

use vstd::prelude::*;
use vstd::set_lib::lemma_len_subset;
use crate::slot::all_slots;
use crate::slot::lemma_slot_count;
use crate::slot::SeqChar;

verus! {

/// The correlator's two tables, as mathematical maps.
#[verifier::ext_equal]
pub struct Tables {
    /// Elapsed time at send, for each slot with a request in flight.
    pub pending: Map<SeqChar, u64>,
    /// Payload of the latest reply, for each slot with a reply not yet
    /// matched.
    pub replies: Map<SeqChar, Seq<u8>>,
}

/// What the resolution of a slot yields, with the payload as a sequence.
pub enum Outcome {
    /// A reply arrived: the elapsed time at send, and the reply's payload.
    Measured { elapsed: u64, payload: Seq<u8> },
    /// No reply arrived: the elapsed time at send.
    Missing { elapsed: u64 },
}

impl Tables {
    /// Both tables empty.
    pub open spec fn empty() -> Tables {
        Tables { pending: Map::empty(), replies: Map::empty() }
    }

    /// The tables after a request for `id` was sent at `elapsed`.
    pub open spec fn send(self, id: SeqChar, elapsed: u64) -> Tables {
        Tables { pending: self.pending.insert(id, elapsed), replies: self.replies }
    }

    /// The tables after a reply for `id` arrived; a newer payload takes the
    /// place of an older one.
    pub open spec fn reply(self, id: SeqChar, payload: Seq<u8>) -> Tables {
        Tables { pending: self.pending, replies: self.replies.insert(id, payload) }
    }

    /// What resolving `id` yields; meaningful where a request for `id` is in
    /// flight.
    pub open spec fn outcome(self, id: SeqChar) -> Outcome {
        if self.replies.contains_key(id) {
            Outcome::Measured { elapsed: self.pending[id], payload: self.replies[id] }
        } else {
            Outcome::Missing { elapsed: self.pending[id] }
        }
    }

    /// The tables after `id` was resolved: both of its entries are gone.
    pub open spec fn resolve(self, id: SeqChar) -> Tables {
        Tables { pending: self.pending.remove(id), replies: self.replies.remove(id) }
    }

    /// Whether every entry belongs to a valid slot.
    pub open spec fn keys_valid(self) -> bool {
        &&& forall|id: SeqChar| self.pending.contains_key(id) ==> id.wf()
        &&& forall|id: SeqChar| self.replies.contains_key(id) ==> id.wf()
    }
}

/// What the resolution of a slot yields: the externally visible record of
/// one request.
#[derive(Clone, Debug, PartialEq, Eq)]
pub enum ResolutionOutcome {
    /// A reply arrived: the elapsed time at which the request was sent, and
    /// the reply's payload.
    Measured { elapsed: u64, payload: Vec<u8> },
    /// No reply arrived within one revolution: the elapsed time at which the
    /// request was sent.
    Missing { elapsed: u64 },
}

impl View for ResolutionOutcome {
    type V = Outcome;

    open spec fn view(&self) -> Outcome {
        match self {
            ResolutionOutcome::Measured { elapsed, payload } => Outcome::Measured {
                elapsed: *elapsed,
                payload: payload@,
            },
            ResolutionOutcome::Missing { elapsed } => Outcome::Missing { elapsed: *elapsed },
        }
    }
}

/// Matches replies to the requests that caused them, by slot.
///
/// Each slot holds at most one elapsed time of a request in flight and at
/// most one payload of a reply not yet matched.
pub struct Correlator {
    pending: Vec<Option<u64>>,
    replies: Vec<Option<Vec<u8>>>,
}

impl View for Correlator {
    type V = Tables;

    closed spec fn view(&self) -> Tables {
        Tables {
            pending: Map::new(
                |id: SeqChar| id.wf() && self.pending@[id.position()] is Some,
                |id: SeqChar| self.pending@[id.position()]->0,
            ),
            replies: Map::new(
                |id: SeqChar| id.wf() && self.replies@[id.position()] is Some,
                |id: SeqChar| self.replies@[id.position()]->0@,
            ),
        }
    }
}

impl Correlator {
    #[verifier::type_invariant]
    closed spec fn inv(self) -> bool {
        self.pending@.len() == 26 && self.replies@.len() == 26
    }

    /// Every entry of a correlator belongs to a valid slot.
    pub proof fn lemma_keys_valid(self)
        ensures
            self@.keys_valid(),
    {
    }

    /// A correlator with nothing in flight and nothing received.
    pub fn new() -> (c: Correlator)
        ensures
            c@ == Tables::empty(),
    {
        let mut pending: Vec<Option<u64>> = Vec::new();
        let mut replies: Vec<Option<Vec<u8>>> = Vec::new();
        let mut i: usize = 0;
        while i < 26
            invariant
                i <= 26,
                pending@.len() == i,
                replies@.len() == i,
                forall|k: int| 0 <= k < i ==> pending@[k] is None,
                forall|k: int| 0 <= k < i ==> replies@[k] is None,
            decreases 26 - i,
        {
            pending.push(None);
            replies.push(None);
            i += 1;
        }
        let c = Correlator { pending, replies };
        proof {
            broadcast use SeqChar::lemma_position_range;

            assert(c@.pending =~= Map::<SeqChar, u64>::empty());
            assert(c@.replies =~= Map::<SeqChar, Seq<u8>>::empty());
        }
        c
    }

    /// Whether a request for `id` is in flight.
    pub fn has_pending(&self, id: SeqChar) -> (b: bool)
        ensures
            b == self@.pending.contains_key(id),
    {
        proof {
            use_type_invariant(self);
        }
        self.pending[id.index() as usize].is_some()
    }

    /// Whether a reply for `id` waits to be matched.
    pub fn has_reply(&self, id: SeqChar) -> (b: bool)
        ensures
            b == self@.replies.contains_key(id),
    {
        proof {
            use_type_invariant(self);
        }
        self.replies[id.index() as usize].is_some()
    }

    /// Records that a request for `id` was sent at `elapsed`.
    ///
    /// An entry that `id` still has is overwritten.
    pub fn record_send(&mut self, id: SeqChar, elapsed: u64)
        ensures
            final(self)@ == old(self)@.send(id, elapsed),
    {
        proof {
            use_type_invariant(&*self);
        }
        let i: usize = id.index() as usize;
        self.pending[i] = Some(elapsed);
        proof {
            broadcast use SeqChar::lemma_position_range;

            assert(self@.pending =~= old(self)@.pending.insert(id, elapsed));
            assert(self@.replies =~= old(self)@.replies);
        }
    }

    /// Records a reply for `id`; the newest payload for a slot is the one
    /// that is kept.
    pub fn record_reply(&mut self, id: SeqChar, payload: Vec<u8>)
        ensures
            final(self)@ == old(self)@.reply(id, payload@),
    {
        proof {
            use_type_invariant(&*self);
        }
        let i: usize = id.index() as usize;
        self.replies[i] = Some(payload);
        proof {
            broadcast use SeqChar::lemma_position_range;

            assert(self@.pending =~= old(self)@.pending);
            assert(self@.replies =~= old(self)@.replies.insert(id, payload@));
        }
    }

    /// Resolves `id`: removes its request and its reply, and says whether
    /// the request was answered.
    ///
    /// The elapsed time in the outcome is the one recorded when the request
    /// was sent. A request for `id` has to be in flight.
    pub fn resolve(&mut self, id: SeqChar) -> (outcome: ResolutionOutcome)
        requires
            old(self)@.pending.contains_key(id),
        ensures
            outcome@ == old(self)@.outcome(id),
            final(self)@ == old(self)@.resolve(id),
    {
        proof {
            use_type_invariant(&*self);
        }
        let i: usize = id.index() as usize;
        let sent: Option<u64> = self.pending[i].take();
        let reply: Option<Vec<u8>> = self.replies[i].take();
        proof {
            broadcast use SeqChar::lemma_position_range;

            assert(self@.pending =~= old(self)@.pending.remove(id));
            assert(self@.replies =~= old(self)@.replies.remove(id));
        }
        let elapsed: u64 = sent.unwrap();
        match reply {
            Some(payload) => ResolutionOutcome::Measured { elapsed, payload },
            None => ResolutionOutcome::Missing { elapsed },
        }
    }
}

/// One call on a correlator, as a value.
pub enum Event {
    /// A request for `id` was sent at `elapsed`.
    Send { id: SeqChar, elapsed: u64 },
    /// A reply for `id` arrived.
    Reply { id: SeqChar, payload: Seq<u8> },
    /// The slot `id` was resolved.
    Resolve { id: SeqChar },
}

impl Event {
    /// The slot that the call is about.
    pub open spec fn slot(self) -> SeqChar {
        match self {
            Event::Send { id, .. } => id,
            Event::Reply { id, .. } => id,
            Event::Resolve { id } => id,
        }
    }
}

impl Tables {
    /// The tables after one call.
    pub open spec fn step(self, event: Event) -> Tables {
        match event {
            Event::Send { id, elapsed } => self.send(id, elapsed),
            Event::Reply { id, payload } => self.reply(id, payload),
            Event::Resolve { id } => self.resolve(id),
        }
    }

    /// The tables after a sequence of calls, made in order.
    pub open spec fn run(self, events: Seq<Event>) -> Tables
        decreases events.len(),
    {
        if events.len() == 0 {
            self
        } else {
            self.run(events.drop_last()).step(events.last())
        }
    }
}

/// Whether none of `events` is about the slot `id`.
pub open spec fn leaves_slot_alone(events: Seq<Event>, id: SeqChar) -> bool {
    forall|i: int| 0 <= i < events.len() ==> (#[trigger] events[i]).slot() != id
}

/// Whether none of `events` is a reply for the slot `id`.
pub open spec fn never_replies(events: Seq<Event>, id: SeqChar) -> bool {
    forall|i: int| 0 <= i < events.len() ==> !(#[trigger] events[i] matches Event::Reply { id: other, .. } && other == id)
}

/// Whether none of `events` sends a request for `id` or resolves `id`;
/// replies for `id` may be among them.
pub open spec fn keeps_request(events: Seq<Event>, id: SeqChar) -> bool {
    forall|i: int| 0 <= i < events.len() ==> (#[trigger] events[i]) is Reply || events[i].slot() != id
}

/// Calls about other slots change nothing for `id`: neither its request in
/// flight nor its reply.
pub proof fn lemma_other_slots_leave_entries(tables: Tables, events: Seq<Event>, id: SeqChar)
    requires
        leaves_slot_alone(events, id),
    ensures
        tables.run(events).pending.contains_key(id) == tables.pending.contains_key(id),
        tables.run(events).pending[id] == tables.pending[id],
        tables.run(events).replies.contains_key(id) == tables.replies.contains_key(id),
        tables.run(events).replies[id] == tables.replies[id],
    decreases events.len(),
{
    if events.len() > 0 {
        let earlier = events.drop_last();
        assert(forall|i: int| 0 <= i < earlier.len() ==> earlier[i] == events[i]);
        lemma_other_slots_leave_entries(tables, earlier, id);
        assert(events.last() == events[events.len() - 1]);
    }
}

/// A request in flight stays in flight, with its elapsed time, as long as
/// its slot is neither sent again nor resolved.
pub proof fn lemma_request_kept(tables: Tables, events: Seq<Event>, id: SeqChar)
    requires
        keeps_request(events, id),
    ensures
        tables.run(events).pending.contains_key(id) == tables.pending.contains_key(id),
        tables.run(events).pending[id] == tables.pending[id],
    decreases events.len(),
{
    if events.len() > 0 {
        let earlier = events.drop_last();
        assert(forall|i: int| 0 <= i < earlier.len() ==> earlier[i] == events[i]);
        lemma_request_kept(tables, earlier, id);
        assert(events.last() == events[events.len() - 1]);
    }
}

/// A slot for which no reply is ever recorded has no reply waiting.
pub proof fn lemma_never_replied(tables: Tables, events: Seq<Event>, id: SeqChar)
    requires
        !tables.replies.contains_key(id),
        never_replies(events, id),
    ensures
        !tables.run(events).replies.contains_key(id),
    decreases events.len(),
{
    if events.len() > 0 {
        let earlier = events.drop_last();
        assert(forall|i: int| 0 <= i < earlier.len() ==> earlier[i] == events[i]);
        lemma_never_replied(tables, earlier, id);
        assert(events.last() == events[events.len() - 1]);
    }
}

/// A request that is never answered resolves to `Missing`, with the elapsed
/// time recorded when it was sent.
///
/// Starting from an empty correlator, let any calls be made among which none
/// records a reply for `id`; let a request for `id` then be sent at `elapsed`;
/// and let calls about other slots follow. Resolving `id` then yields
/// `Missing` with `elapsed`.
pub proof fn lemma_unanswered_is_missing(
    before: Seq<Event>,
    id: SeqChar,
    elapsed: u64,
    later: Seq<Event>,
)
    requires
        never_replies(before, id),
        leaves_slot_alone(later, id),
    ensures
        Tables::empty().run(before).send(id, elapsed).run(later).pending.contains_key(id),
        Tables::empty().run(before).send(id, elapsed).run(later).outcome(id) == (Outcome::Missing {
            elapsed,
        }),
{
    lemma_never_replied(Tables::empty(), before, id);
    let sent = Tables::empty().run(before).send(id, elapsed);
    lemma_other_slots_leave_entries(sent, later, id);
}

/// A request that is answered before it is resolved resolves to `Measured`,
/// with the elapsed time recorded when it was sent and the payload of the
/// latest reply.
///
/// From any state, let a request for `id` be sent at `elapsed`; let any calls
/// follow that neither send for `id` again nor resolve it; let a reply for
/// `id` with `payload` arrive; and let calls about other slots follow.
/// Resolving `id` then yields `Measured` with `elapsed` and `payload`.
pub proof fn lemma_answered_is_measured(
    tables: Tables,
    id: SeqChar,
    elapsed: u64,
    between: Seq<Event>,
    payload: Seq<u8>,
    later: Seq<Event>,
)
    requires
        keeps_request(between, id),
        leaves_slot_alone(later, id),
    ensures
        tables.send(id, elapsed).run(between).reply(id, payload).run(later).pending.contains_key(
            id,
        ),
        tables.send(id, elapsed).run(between).reply(id, payload).run(later).outcome(id) == (
        Outcome::Measured { elapsed, payload }),
{
    let sent = tables.send(id, elapsed);
    lemma_request_kept(sent, between, id);
    let answered = sent.run(between).reply(id, payload);
    lemma_other_slots_leave_entries(answered, later, id);
}

/// Resolving a slot leaves nothing of it behind: no request in flight and
/// no reply, so the next request for the slot starts afresh.
pub proof fn lemma_resolve_clears(tables: Tables, id: SeqChar)
    ensures
        !tables.resolve(id).pending.contains_key(id),
        !tables.resolve(id).replies.contains_key(id),
{
}

/// Tables whose entries belong to valid slots hold at most 26 requests in
/// flight and at most 26 replies, however long the run.
pub proof fn lemma_at_most_26_entries(tables: Tables)
    requires
        tables.keys_valid(),
    ensures
        tables.pending.dom().finite(),
        tables.pending.len() <= 26,
        tables.replies.dom().finite(),
        tables.replies.len() <= 26,
{
    lemma_slot_count();
    lemma_len_subset(tables.pending.dom(), all_slots());
    lemma_len_subset(tables.replies.dom(), all_slots());
}

} // verus!
