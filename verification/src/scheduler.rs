//! The acquisition scheduler: what to do at each tick of the sampling clock,
//! with each frame that arrives, and when a stop is requested.
//!
//! The scheduler decides and the caller acts: it hands out the frame to
//! transmit and the outcome to record, and is told the elapsed time at each
//! tick and the bytes of each delivery.

use vstd::prelude::*;
use crate::codec::assemble_packet;
use crate::codec::decode;
use crate::codec::decoded;
use crate::codec::frame_of;
use crate::codec::DecodeError;
use crate::correlator::Correlator;
use crate::correlator::Outcome;
use crate::correlator::ResolutionOutcome;
use crate::correlator::Tables;
use crate::slot::SeqChar;

verus! {

/// Where a run stands.
#[derive(Clone, Copy, Debug, PartialEq, Eq, Structural)]
pub enum Phase {
    /// Ticking, with no stop requested.
    Running,
    /// A stop was requested: ticking goes on until the current slot is
    /// `boundary`.
    Draining { boundary: SeqChar },
    /// The run is over; no tick does anything any more.
    Stopped,
}

/// The scheduler's state, as a mathematical value.
#[verifier::ext_equal]
pub struct State {
    /// The correlator's tables.
    pub tables: Tables,
    /// The slot of the next request.
    pub current: SeqChar,
    /// Where the run stands.
    pub phase: Phase,
    /// Time between two ticks.
    pub period: u64,
    /// Elapsed time at which the next tick is due.
    pub deadline: u64,
    /// The payload of every request.
    pub request: Seq<u8>,
}

/// The sum of `a` and `b`, held at the largest `u64` where it would pass it.
pub open spec fn saturating_sum(a: u64, b: u64) -> u64 {
    if a + b > u64::MAX {
        u64::MAX
    } else {
        (a + b) as u64
    }
}

/// Resolves, in cycle order, each of the `n` slots from `start` on that has
/// a request in flight: the tables that are left, and the outcomes in the
/// order in which they come.
pub open spec fn drained(tables: Tables, start: SeqChar, n: nat) -> (Tables, Seq<Outcome>)
    decreases n,
{
    if n == 0 {
        (tables, Seq::empty())
    } else {
        let (left, outcomes) = drained(tables, start, (n - 1) as nat);
        let id = start.advance((n - 1) as nat);
        if left.pending.contains_key(id) {
            (left.resolve(id), outcomes.push(left.outcome(id)))
        } else {
            (left, outcomes)
        }
    }
}

impl State {
    /// Validity of a state: its slots are valid, and while the run drains
    /// the current slot is not the boundary.
    pub open spec fn wf(self) -> bool {
        &&& self.current.wf()
        &&& self.tables.keys_valid()
        &&& self.phase matches Phase::Draining { boundary } ==> boundary.wf() && boundary
            != self.current
    }

    /// The state in which a run begins: nothing in flight, the first slot
    /// current, the first tick due at once.
    pub open spec fn initial(period: u64, request: Seq<u8>) -> State {
        State {
            tables: Tables::empty(),
            current: SeqChar::at(0),
            phase: Phase::Running,
            period,
            deadline: 0,
            request,
        }
    }

    /// Whether a tick is due at `now`.
    pub open spec fn due(self, now: u64) -> bool {
        !(self.phase is Stopped) && self.deadline <= now
    }

    /// The frame that the next tick transmits.
    pub open spec fn tick_frame(self) -> Seq<u8> {
        frame_of(self.current, self.request)
    }

    /// The slot that the next tick resolves: the successor of the current
    /// one.
    pub open spec fn tick_slot(self) -> SeqChar {
        self.current.succ()
    }

    /// What the next tick, made at `elapsed`, hands to the sink: the outcome
    /// of the slot it resolves, if that slot has a request in flight.
    pub open spec fn tick_outcome(self, elapsed: u64) -> Option<Outcome> {
        let sent = self.tables.send(self.current, elapsed);
        if sent.pending.contains_key(self.tick_slot()) {
            Some(sent.outcome(self.tick_slot()))
        } else {
            None
        }
    }

    /// The state after a tick at `elapsed` of a run that has not stopped.
    ///
    /// The request for the current slot is recorded, the successor becomes
    /// current and is resolved if it has a request in flight, the deadline
    /// moves on by one period, and a draining run that has come to its
    /// boundary stops.
    pub open spec fn after_tick(self, elapsed: u64) -> State {
        let sent = self.tables.send(self.current, elapsed);
        let slot = self.tick_slot();
        State {
            tables: if sent.pending.contains_key(slot) {
                sent.resolve(slot)
            } else {
                sent
            },
            current: slot,
            phase: match self.phase {
                Phase::Draining { boundary } => if boundary == slot {
                    Phase::Stopped
                } else {
                    self.phase
                },
                _ => self.phase,
            },
            period: self.period,
            deadline: saturating_sum(self.deadline, self.period),
            request: self.request,
        }
    }

    /// The state after a tick at `elapsed`, whatever the phase: a stopped
    /// run stays as it is.
    pub open spec fn tick(self, elapsed: u64) -> State {
        if self.phase is Stopped {
            self
        } else {
            self.after_tick(elapsed)
        }
    }

    /// The state after a delivery of `frame`: a frame that decodes is
    /// recorded as a reply, any other changes nothing.
    pub open spec fn receive(self, frame: Seq<u8>) -> State {
        match decoded(frame) {
            Ok((id, payload)) => State { tables: self.tables.reply(id, payload), ..self },
            Err(_) => self,
        }
    }

    /// The state after a stop was requested: a running run begins to drain,
    /// up to the predecessor of the current slot; a run that drains or has
    /// stopped stays as it is.
    pub open spec fn request_stop(self) -> State {
        match self.phase {
            Phase::Running => State {
                phase: Phase::Draining { boundary: self.current.pred() },
                ..self
            },
            _ => self,
        }
    }

    /// The state after the run was finished: every request still in flight
    /// is resolved, and the run has stopped.
    pub open spec fn finish(self) -> State {
        State { tables: drained(self.tables, self.current, 26).0, phase: Phase::Stopped, ..self }
    }

    /// The outcomes that finishing the run yields, in cycle order from the
    /// current slot on.
    pub open spec fn finish_outcomes(self) -> Seq<Outcome> {
        drained(self.tables, self.current, 26).1
    }
}

/// What a tick asks of the caller.
#[derive(Clone, Debug, PartialEq, Eq)]
pub struct TickAction {
    /// The request frame to transmit.
    pub frame: Vec<u8>,
    /// The outcome to record, if a slot was resolved.
    pub outcome: Option<ResolutionOutcome>,
}

impl TickAction {
    /// The outcome to record, with its payload as a sequence.
    pub open spec fn outcome_view(self) -> Option<Outcome> {
        match self.outcome {
            Some(outcome) => Some(outcome@),
            None => None,
        }
    }
}

/// The outcomes of `list`, each with its payload as a sequence.
pub open spec fn outcome_views(list: Seq<ResolutionOutcome>) -> Seq<Outcome> {
    Seq::new(list.len(), |i: int| list[i]@)
}

/// Drives the sampling clock of one run: one request per tick, one slot
/// resolved per tick, replies recorded as they arrive.
pub struct Scheduler {
    correlator: Correlator,
    cycle: Cycle,
    period: u64,
    deadline: u64,
    request: Vec<u8>,
}

/// Where the scheduler is in the cycle of slots, and in the run.
#[derive(Clone, Copy)]
struct Cycle {
    current: SeqChar,
    phase: Phase,
}

impl Cycle {
    #[verifier::type_invariant]
    closed spec fn inv(self) -> bool {
        &&& self.current.wf()
        &&& self.phase matches Phase::Draining { boundary } ==> boundary.wf() && boundary
            != self.current
    }
}

impl View for Scheduler {
    type V = State;

    closed spec fn view(&self) -> State {
        State {
            tables: self.correlator@,
            current: self.cycle.current,
            phase: self.cycle.phase,
            period: self.period,
            deadline: self.deadline,
            request: self.request@,
        }
    }
}

impl Scheduler {
    /// A scheduler whose place in the cycle is valid has a valid state as
    /// its view.
    proof fn lemma_valid(&self)
        requires
            self.cycle.inv(),
        ensures
            self@.wf(),
    {
        self.correlator.lemma_keys_valid();
    }

    /// A scheduler at the start of a run with the given tick period, whose
    /// requests all carry `request` as their payload.
    pub fn new(period: u64, request: Vec<u8>) -> (s: Scheduler)
        ensures
            s@ == State::initial(period, request@),
            s@.wf(),
    {
        let correlator = Correlator::new();
        let current = SeqChar::first();
        let cycle = Cycle { current, phase: Phase::Running };
        let s = Scheduler { correlator, cycle, period, deadline: 0, request };
        proof {
            broadcast use SeqChar::lemma_position_range;

            s.lemma_valid();
            assert(s@ =~= State::initial(period, request@));
        }
        s
    }

    /// The slot of the next request.
    pub fn current(&self) -> (id: SeqChar)
        ensures
            id == self@.current,
            self@.wf(),
    {
        proof {
            use_type_invariant(&self.cycle);
            self.lemma_valid();
        }
        self.cycle.current
    }

    /// Where the run stands.
    pub fn phase(&self) -> (phase: Phase)
        ensures
            phase == self@.phase,
            self@.wf(),
    {
        proof {
            use_type_invariant(&self.cycle);
            self.lemma_valid();
        }
        self.cycle.phase
    }

    /// Whether the run is over.
    pub fn is_stopped(&self) -> (b: bool)
        ensures
            b == (self@.phase is Stopped),
    {
        match self.cycle.phase {
            Phase::Stopped => true,
            _ => false,
        }
    }

    /// Time between two ticks.
    pub fn period(&self) -> (period: u64)
        ensures
            period == self@.period,
    {
        self.period
    }

    /// Elapsed time at which the next tick is due.
    pub fn deadline(&self) -> (deadline: u64)
        ensures
            deadline == self@.deadline,
    {
        self.deadline
    }

    /// Whether a request for `id` is in flight.
    pub fn has_pending(&self, id: SeqChar) -> (b: bool)
        ensures
            b == self@.tables.pending.contains_key(id),
    {
        self.correlator.has_pending(id)
    }

    /// Whether a reply for `id` waits to be matched.
    pub fn has_reply(&self, id: SeqChar) -> (b: bool)
        ensures
            b == self@.tables.replies.contains_key(id),
    {
        self.correlator.has_reply(id)
    }

    /// Whether a tick is due at the elapsed time `now`: the run has not
    /// stopped and the deadline has come.
    pub fn is_due(&self, now: u64) -> (b: bool)
        ensures
            b == self@.due(now),
    {
        !self.is_stopped() && self.deadline <= now
    }

    /// Makes one tick at the elapsed time `elapsed`.
    ///
    /// In a run that has not stopped, the tick yields the request frame for
    /// the current slot, records the request as sent at `elapsed`, makes the
    /// successor current, resolves it if it has a request in flight, and
    /// moves the deadline on by one period, from the deadline and not from
    /// `elapsed`. A draining run stops when the slot that became current is
    /// its boundary. In a run that has stopped, a tick does nothing and
    /// yields nothing.
    pub fn tick(&mut self, elapsed: u64) -> (action: Option<TickAction>)
        ensures
            final(self)@ == old(self)@.tick(elapsed),
            final(self)@.wf(),
            old(self)@.phase is Stopped <==> action is None,
            action matches Some(a) ==> a.frame@ == old(self)@.tick_frame() && a.outcome_view()
                == old(self)@.tick_outcome(elapsed),
    {
        proof {
            use_type_invariant(&self.cycle);
            self.lemma_valid();
        }
        if self.is_stopped() {
            return None;
        }
        let current: SeqChar = self.cycle.current;
        let frame: Vec<u8> = assemble_packet(&current, self.request.as_slice());
        self.correlator.record_send(current, elapsed);
        let slot: SeqChar = current.next();
        let outcome: Option<ResolutionOutcome> = if self.correlator.has_pending(slot) {
            Some(self.correlator.resolve(slot))
        } else {
            None
        };
        let phase: Phase = match self.cycle.phase {
            Phase::Draining { boundary } => if boundary == slot {
                Phase::Stopped
            } else {
                Phase::Draining { boundary }
            },
            other => other,
        };
        self.cycle = Cycle { current: slot, phase };
        self.deadline = self.deadline.saturating_add(self.period);
        proof {
            self.lemma_valid();
            assert(self@ =~= old(self)@.tick(elapsed));
        }
        Some(TickAction { frame, outcome })
    }

    /// Takes a delivery from the transport.
    ///
    /// A frame that decodes is recorded as the reply for its slot, which is
    /// returned. Any other frame is dropped with its error, and nothing
    /// changes.
    pub fn receive(&mut self, frame: &[u8]) -> (r: Result<SeqChar, DecodeError>)
        ensures
            final(self)@ == old(self)@.receive(frame@),
            final(self)@.wf(),
            match r {
                Ok(id) => decoded(frame@) matches Ok(parts) && parts.0 == id,
                Err(e) => decoded(frame@) == Err::<(SeqChar, Seq<u8>), DecodeError>(e)
                    && final(self)@ == old(self)@,
            },
    {
        proof {
            use_type_invariant(&self.cycle);
            self.lemma_valid();
        }
        match decode(frame) {
            Ok((id, payload)) => {
                self.correlator.record_reply(id, payload);
                proof {
                    self.lemma_valid();
                    assert(self@ =~= old(self)@.receive(frame@));
                }
                Ok(id)
            },
            Err(e) => Err(e),
        }
    }

    /// Takes a request to stop.
    ///
    /// A running run begins to drain: it goes on ticking until its current
    /// slot is the predecessor of the slot that is current now. A later
    /// request changes nothing.
    pub fn request_stop(&mut self)
        ensures
            final(self)@ == old(self)@.request_stop(),
            final(self)@.wf(),
    {
        proof {
            use_type_invariant(&self.cycle);
            self.lemma_valid();
        }
        match self.cycle.phase {
            Phase::Running => {
                let current: SeqChar = self.cycle.current;
                let boundary: SeqChar = current.before();
                proof {
                    broadcast use SeqChar::lemma_position_range, SeqChar::lemma_at_position;

                }
                self.cycle = Cycle { current, phase: Phase::Draining { boundary } };
            },
            _ => {},
        }
        proof {
            self.lemma_valid();
            assert(self@ =~= old(self)@.request_stop());
        }
    }

    /// Ends the run: resolves every request that is still in flight, in
    /// cycle order from the current slot on, and stops.
    ///
    /// Afterwards no request is in flight.
    pub fn finish(&mut self) -> (outcomes: Vec<ResolutionOutcome>)
        ensures
            final(self)@ == old(self)@.finish(),
            final(self)@.wf(),
            outcome_views(outcomes@) == old(self)@.finish_outcomes(),
            final(self)@.tables.pending == Map::<SeqChar, u64>::empty(),
    {
        proof {
            use_type_invariant(&self.cycle);
            self.lemma_valid();
        }
        let start: SeqChar = self.cycle.current;
        let mut outcomes: Vec<ResolutionOutcome> = Vec::new();
        let mut id: SeqChar = start;
        let mut n: u8 = 0;
        assert(outcome_views(outcomes@) =~= Seq::<Outcome>::empty());
        while n < 26
            invariant
                n <= 26,
                self.cycle == old(self).cycle,
                self.period == old(self).period,
                self.deadline == old(self).deadline,
                self.request == old(self).request,
                start == old(self).cycle.current,
                start.wf(),
                id == start.advance(n as nat),
                id.wf(),
                self.correlator@ == drained(old(self).correlator@, start, n as nat).0,
                outcome_views(outcomes@) == drained(old(self).correlator@, start, n as nat).1,
            decreases 26 - n,
        {
            let ghost before = outcome_views(outcomes@);
            if self.correlator.has_pending(id) {
                let outcome: ResolutionOutcome = self.correlator.resolve(id);
                outcomes.push(outcome);
                assert(outcome_views(outcomes@) =~= before.push(outcome@));
            }
            id = id.next();
            n += 1;
        }
        self.cycle = Cycle { current: start, phase: Phase::Stopped };
        proof {
            self.lemma_valid();
            lemma_drained_leaves_nothing(old(self).correlator@, start);
            assert(self@ =~= old(self)@.finish());
        }
        outcomes
    }
}

/// Resolving the slots from `start` on leaves a slot without a request in
/// flight once it has been passed.
pub proof fn lemma_drained_clears(tables: Tables, start: SeqChar, n: nat, k: nat)
    requires
        k < n,
    ensures
        !drained(tables, start, n).0.pending.contains_key(start.advance(k)),
    decreases n,
{
    if k < n - 1 {
        lemma_drained_clears(tables, start, (n - 1) as nat, k);
    }
}

/// Resolving only ever removes entries: what is left was there before.
pub proof fn lemma_drained_subset(tables: Tables, start: SeqChar, n: nat)
    ensures
        drained(tables, start, n).0.pending.dom().subset_of(tables.pending.dom()),
        drained(tables, start, n).0.replies.dom().subset_of(tables.replies.dom()),
    decreases n,
{
    if n > 0 {
        lemma_drained_subset(tables, start, (n - 1) as nat);
    }
}

/// One revolution of resolving, from any valid slot, leaves no request in
/// flight.
pub proof fn lemma_drained_leaves_nothing(tables: Tables, start: SeqChar)
    requires
        tables.keys_valid(),
        start.wf(),
    ensures
        drained(tables, start, 26).0.pending == Map::<SeqChar, u64>::empty(),
{
    let left = drained(tables, start, 26).0;
    lemma_drained_subset(tables, start, 26);
    assert forall|id: SeqChar| !left.pending.contains_key(id) by {
        if left.pending.contains_key(id) {
            assert(tables.pending.dom().contains(id));
            let k = ((id.position() - start.position() + 26) % 26) as nat;
            id.lemma_position_range();
            start.lemma_position_range();
            crate::slot::lemma_advance_position(start, k);
            start.advance(k).lemma_position_range();
            assert(start.advance(k) == id);
            lemma_drained_clears(tables, start, 26, k);
        }
    }
    assert(left.pending =~= Map::<SeqChar, u64>::empty());
}

} // verus!
