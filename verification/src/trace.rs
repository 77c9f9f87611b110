//! Whole runs of the scheduler: what holds after any sequence of ticks,
//! deliveries and stop requests.

use vstd::prelude::*;
use crate::codec::decoded;
use crate::codec::frame_of;
use crate::correlator::Outcome;
use crate::scheduler::lemma_drained_leaves_nothing;
use crate::scheduler::lemma_drained_subset;
use crate::scheduler::saturating_sum;
use crate::scheduler::Phase;
use crate::scheduler::State;
use crate::slot::lemma_advance_position;
use crate::slot::SeqChar;

verus! {

/// One thing that happens to a scheduler.
pub enum Input {
    /// The clock ticks at the elapsed time `elapsed`.
    Tick { elapsed: u64 },
    /// The transport delivers `frame`.
    Delivery { frame: Seq<u8> },
    /// A stop is requested.
    Stop,
}

/// The state after one input.
pub open spec fn step(state: State, input: Input) -> State {
    match input {
        Input::Tick { elapsed } => state.tick(elapsed),
        Input::Delivery { frame } => state.receive(frame),
        Input::Stop => state.request_stop(),
    }
}

/// The state after a sequence of inputs, taken in order.
pub open spec fn run(state: State, inputs: Seq<Input>) -> State
    decreases inputs.len(),
{
    if inputs.len() == 0 {
        state
    } else {
        step(run(state, inputs.drop_last()), inputs.last())
    }
}

/// How many of `inputs` are ticks.
pub open spec fn tick_count(inputs: Seq<Input>) -> nat
    decreases inputs.len(),
{
    if inputs.len() == 0 {
        0
    } else if inputs.last() is Tick {
        tick_count(inputs.drop_last()) + 1
    } else {
        tick_count(inputs.drop_last())
    }
}

/// Every input takes a valid state to a valid state.
pub proof fn lemma_step_keeps_valid(state: State, input: Input)
    requires
        state.wf(),
    ensures
        step(state, input).wf(),
{
    broadcast use SeqChar::lemma_position_range, SeqChar::lemma_at_position;

}

/// Every run from a valid state ends in a valid state.
pub proof fn lemma_run_keeps_valid(state: State, inputs: Seq<Input>)
    requires
        state.wf(),
    ensures
        run(state, inputs).wf(),
    decreases inputs.len(),
{
    if inputs.len() > 0 {
        lemma_run_keeps_valid(state, inputs.drop_last());
        lemma_step_keeps_valid(run(state, inputs.drop_last()), inputs.last());
    }
}

/// The state in which a run begins is valid.
pub proof fn lemma_initial_valid(period: u64, request: Seq<u8>)
    ensures
        State::initial(period, request).wf(),
{
    broadcast use SeqChar::lemma_at_position;

}

/// Finishing a valid run leaves a valid state that has stopped, with no
/// request in flight.
pub proof fn lemma_finish_leaves_nothing_in_flight(state: State)
    requires
        state.wf(),
    ensures
        state.finish().wf(),
        state.finish().phase is Stopped,
        state.finish().tables.pending == Map::<SeqChar, u64>::empty(),
{
    lemma_drained_leaves_nothing(state.tables, state.current);
    lemma_drained_subset(state.tables, state.current, 26);
}

/// A delivery that does not decode changes nothing.
pub proof fn lemma_bad_delivery_changes_nothing(state: State, frame: Seq<u8>)
    requires
        decoded(frame) is Err,
    ensures
        state.receive(frame) == state,
{
}

/// A run that has stopped stays stopped: no input moves the current slot or
/// touches a request in flight.
pub proof fn lemma_stopped_is_final(state: State, inputs: Seq<Input>)
    requires
        state.phase is Stopped,
    ensures
        run(state, inputs).phase is Stopped,
        run(state, inputs).current == state.current,
        run(state, inputs).tables.pending == state.tables.pending,
        run(state, inputs).deadline == state.deadline,
    decreases inputs.len(),
{
    if inputs.len() > 0 {
        lemma_stopped_is_final(state, inputs.drop_last());
    }
}

/// A run that has not stopped at its end had not stopped at any point
/// before.
pub proof fn lemma_not_stopped_before(state: State, inputs: Seq<Input>, k: int)
    requires
        0 <= k <= inputs.len(),
        !(run(state, inputs).phase is Stopped),
    ensures
        !(run(state, inputs.take(k)).phase is Stopped),
    decreases inputs.len() - k,
{
    if k == inputs.len() {
        assert(inputs.take(k) =~= inputs);
    } else {
        lemma_not_stopped_before(state, inputs, k + 1);
        assert(inputs.take(k + 1).drop_last() =~= inputs.take(k));
        if run(state, inputs.take(k)).phase is Stopped {
            assert(run(state, inputs.take(k + 1)) == step(
                run(state, inputs.take(k)),
                inputs.take(k + 1).last(),
            ));
        }
    }
}

/// As long as a run has not stopped, each tick moves the current slot one
/// step round the cycle; deliveries and stop requests do not move it.
pub proof fn lemma_current_follows_ticks(state: State, inputs: Seq<Input>)
    requires
        !(run(state, inputs).phase is Stopped),
    ensures
        run(state, inputs).current == state.current.advance(tick_count(inputs)),
    decreases inputs.len(),
{
    if inputs.len() > 0 {
        let earlier = inputs.drop_last();
        assert(inputs.take(inputs.len() - 1) =~= earlier);
        lemma_not_stopped_before(state, inputs, inputs.len() - 1);
        lemma_current_follows_ticks(state, earlier);
    }
}

/// After a stop is requested, a run goes on for exactly 25 ticks.
///
/// Let a stop be requested of a valid running state whose current slot is
/// `c`, and let any inputs follow. While fewer than 25 of them are ticks the
/// run drains towards the predecessor of `c`, its current slot is as many
/// steps beyond `c` as ticks were made, and the next tick transmits the
/// request for that slot. From the 25th tick on the run has stopped, with
/// the predecessor of `c` current.
pub proof fn lemma_draining_takes_25_ticks(state: State, inputs: Seq<Input>)
    requires
        state.wf(),
        state.phase is Running,
    ensures
        tick_count(inputs) < 25 ==> {
            &&& run(state.request_stop(), inputs).phase == (Phase::Draining {
                boundary: state.current.pred(),
            })
            &&& run(state.request_stop(), inputs).current == state.current.advance(
                tick_count(inputs),
            )
            &&& run(state.request_stop(), inputs).tick_frame() == frame_of(
                state.current.advance(tick_count(inputs)),
                state.request,
            )
        },
        tick_count(inputs) >= 25 ==> {
            &&& run(state.request_stop(), inputs).phase is Stopped
            &&& run(state.request_stop(), inputs).current == state.current.pred()
        },
        run(state.request_stop(), inputs).request == state.request,
    decreases inputs.len(),
{
    broadcast use SeqChar::lemma_position_range, SeqChar::lemma_at_position;

    if inputs.len() > 0 {
        let earlier = inputs.drop_last();
        let k = tick_count(earlier);
        lemma_draining_takes_25_ticks(state, earlier);
        if k < 25 {
            lemma_advance_position(state.current, k);
            lemma_advance_position(state.current, k + 1);
        }
    }
}

/// A request waits one revolution for its reply, and is then resolved with
/// the elapsed time of its own send.
///
/// Let a tick at `sent_at` be made in a valid state that has not stopped; it
/// sends the request for the slot `c` that is current. Let inputs follow
/// after which the run has not stopped. While fewer than 25 of them are ticks
/// the request is still in flight, with `sent_at` as its elapsed time,
/// whatever ticks and deliveries came since. After the 24th of them the next
/// tick resolves `c`, and the outcome carries `sent_at`, not the time of that
/// tick or of any other input.
pub proof fn lemma_request_waits_one_revolution(
    state: State,
    sent_at: u64,
    inputs: Seq<Input>,
    resolved_at: u64,
)
    requires
        state.wf(),
        !(state.phase is Stopped),
        !(run(state.tick(sent_at), inputs).phase is Stopped),
        tick_count(inputs) < 25,
    ensures
        run(state.tick(sent_at), inputs).tables.pending.contains_key(state.current),
        run(state.tick(sent_at), inputs).tables.pending[state.current] == sent_at,
        tick_count(inputs) < 24 ==> run(state.tick(sent_at), inputs).tick_slot() != state.current,
        tick_count(inputs) == 24 ==> {
            &&& run(state.tick(sent_at), inputs).tick_slot() == state.current
            &&& run(state.tick(sent_at), inputs).tick_outcome(resolved_at) matches Some(outcome)
            &&& match outcome {
                Outcome::Measured { elapsed, .. } => elapsed == sent_at,
                Outcome::Missing { elapsed } => elapsed == sent_at,
            }
        },
    decreases inputs.len(),
{
    broadcast use SeqChar::lemma_position_range, SeqChar::lemma_at_position;

    let first = state.tick(sent_at);
    let c = state.current;
    lemma_step_keeps_valid(state, Input::Tick { elapsed: sent_at });
    assert(first == step(state, Input::Tick { elapsed: sent_at }));
    lemma_run_keeps_valid(first, inputs);
    lemma_current_follows_ticks(first, inputs);
    lemma_advance_position(first.current, tick_count(inputs));
    if inputs.len() > 0 {
        let earlier = inputs.drop_last();
        assert(inputs.take(inputs.len() - 1) =~= earlier);
        lemma_not_stopped_before(first, inputs, inputs.len() - 1);
        lemma_request_waits_one_revolution(state, sent_at, earlier, resolved_at);
        lemma_run_keeps_valid(first, earlier);
        lemma_current_follows_ticks(first, earlier);
        lemma_advance_position(first.current, tick_count(earlier));
    }
}

/// The deadline moves by one period for each tick, counted from the
/// deadline at the start and not from the times at which the ticks were
/// made.
pub proof fn lemma_deadline_accumulates(state: State, inputs: Seq<Input>)
    requires
        !(run(state, inputs).phase is Stopped),
    ensures
        run(state, inputs).period == state.period,
        state.deadline + tick_count(inputs) * state.period <= u64::MAX ==> run(
            state,
            inputs,
        ).deadline == state.deadline + tick_count(inputs) * state.period,
        state.deadline + tick_count(inputs) * state.period > u64::MAX ==> run(
            state,
            inputs,
        ).deadline == u64::MAX,
    decreases inputs.len(),
{
    let p = state.period as int;
    if inputs.len() == 0 {
        assert(tick_count(inputs) * p == 0) by (nonlinear_arith)
            requires
                tick_count(inputs) == 0,
        ;
    } else {
        let earlier = inputs.drop_last();
        assert(inputs.take(inputs.len() - 1) =~= earlier);
        lemma_not_stopped_before(state, inputs, inputs.len() - 1);
        lemma_deadline_accumulates(state, earlier);
        let k = tick_count(earlier) as int;
        let before = run(state, earlier);
        assert(run(state, inputs) == step(before, inputs.last()));
        assert(k * p >= 0) by (nonlinear_arith)
            requires
                k >= 0,
                p >= 0,
        ;
        if inputs.last() is Tick {
            assert(tick_count(inputs) == k + 1);
            assert(tick_count(inputs) * p == k * p + p) by (nonlinear_arith)
                requires
                    tick_count(inputs) == k + 1,
            ;
            assert(run(state, inputs).deadline == saturating_sum(before.deadline, before.period));
        } else {
            assert(tick_count(inputs) == k);
            assert(run(state, inputs).deadline == before.deadline);
        }
    }
}

} // verus!
