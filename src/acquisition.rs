//! One measurement cycle as a state machine.
//!
//! The cycle decides; its caller acts. Each call of [`Cycle::step`] hands in
//! what happened (an [`Event`]) and gets back what to do next (an [`Action`]):
//! assert the trigger, wait for the sensor to settle, open the port, read,
//! deassert the trigger, and finally return the result.
use crate::frame::{feed_outcome, feed_rest, is_partial_frame, FrameAssembler, FrameError};
use vstd::prelude::*;

verus! {

/// Why a measurement cycle failed.
#[derive(Clone, Copy, Debug, PartialEq, Eq, Structural)]
pub enum AcqError {
    /// The trigger line could not be exported, configured or set.
    Hardware,
    /// The serial device could not be opened with the required settings.
    PortUnavailable,
    /// The serial stream failed in a way that reading again cannot mend.
    StreamFailed,
    /// A complete payload was not valid text.
    InvalidText,
    /// A complete payload was not the start marker followed by four digits.
    InvalidNumber,
}

/// How a read of the serial stream failed.
#[derive(Clone, Copy, Debug, PartialEq, Eq, Structural)]
pub enum ReadFault {
    /// No byte arrived within the read timeout.
    TimedOut,
    /// A passing failure; reading again may succeed.
    Transient,
    /// The stream can no longer be read.
    Unusable,
}

/// Where a cycle stands.
#[derive(Clone, Copy, Debug)]
pub enum Phase {
    /// Not started.
    Idle,
    /// Waiting for the trigger line to be asserted.
    Asserting,
    /// Waiting for the sensor to settle into free-run mode.
    Stabilizing,
    /// Waiting for the serial port to open.
    Opening,
    /// Reading frames from the serial port.
    Reading,
    /// Waiting for the trigger line to be deasserted; holds the result.
    Releasing(Result<u16, AcqError>),
    /// Done; holds the result that was returned.
    Finished(Result<u16, AcqError>),
}

/// What the caller observed after carrying out the last action.
#[derive(Debug)]
pub enum Event {
    /// Start the cycle.
    Begin,
    /// The trigger line was exported, configured and asserted.
    TriggerSet,
    /// Exporting, configuring or asserting the trigger line failed.
    TriggerFailed,
    /// The stabilization delay has passed.
    Settled,
    /// The serial port is open.
    PortOpened,
    /// The serial port could not be opened.
    PortUnavailable,
    /// A read returned these bytes.
    Data(Vec<u8>),
    /// A read failed.
    Fault(ReadFault),
    /// The trigger line was deasserted.
    TriggerCleared,
    /// Deasserting the trigger line failed.
    ClearFailed,
}

/// What the caller is to do next.
#[derive(Clone, Copy, Debug, PartialEq, Eq)]
pub enum Action {
    /// Export the trigger pin, configure it as an output and assert it.
    AssertTrigger,
    /// Block for this many milliseconds.
    Wait(u64),
    /// Open the serial port.
    OpenPort,
    /// Read once from the serial port.
    ReadChunk,
    /// Deassert the trigger line.
    DeassertTrigger,
    /// The cycle is over: hand this result to the caller.
    Return(Result<u16, AcqError>),
    /// The event did not fit the phase; nothing to do.
    Ignore,
}

/// The abstract state of a cycle.
pub struct CycleModel {
    pub phase: Phase,
    pub buf: Seq<u8>,
    pub delay_ms: u64,
}

pub open spec fn frame_error(e: FrameError) -> AcqError {
    match e {
        FrameError::InvalidText => AcqError::InvalidText,
        FrameError::InvalidNumber => AcqError::InvalidNumber,
    }
}

pub open spec fn frame_result(r: Result<u16, FrameError>) -> Result<u16, AcqError> {
    match r {
        Ok(v) => Ok(v),
        Err(e) => Err(frame_error(e)),
    }
}

/// The result once deasserting the trigger failed: an earlier error wins.
pub open spec fn after_clear_failed(r: Result<u16, AcqError>) -> Result<u16, AcqError> {
    match r {
        Ok(_) => Err(AcqError::Hardware),
        Err(e) => Err(e),
    }
}

pub open spec fn with_phase(m: CycleModel, phase: Phase) -> CycleModel {
    CycleModel { phase, ..m }
}

/// Leave for the releasing phase with result `r`, asking for the trigger to be
/// deasserted.
pub open spec fn release(m: CycleModel, r: Result<u16, AcqError>) -> (CycleModel, Action) {
    (with_phase(m, Phase::Releasing(r)), Action::DeassertTrigger)
}

/// The transition of a cycle on one event.
pub open spec fn next(m: CycleModel, e: Event) -> (CycleModel, Action) {
    match m.phase {
        Phase::Idle => match e {
            Event::Begin => (with_phase(m, Phase::Asserting), Action::AssertTrigger),
            _ => (m, Action::Ignore),
        },
        Phase::Asserting => match e {
            Event::TriggerSet => (with_phase(m, Phase::Stabilizing), Action::Wait(m.delay_ms)),
            Event::TriggerFailed => release(m, Err(AcqError::Hardware)),
            _ => (m, Action::Ignore),
        },
        Phase::Stabilizing => match e {
            Event::Settled => (with_phase(m, Phase::Opening), Action::OpenPort),
            _ => (m, Action::Ignore),
        },
        Phase::Opening => match e {
            Event::PortOpened => (with_phase(m, Phase::Reading), Action::ReadChunk),
            Event::PortUnavailable => release(m, Err(AcqError::PortUnavailable)),
            _ => (m, Action::Ignore),
        },
        Phase::Reading => match e {
            Event::Data(bytes) => match feed_outcome(m.buf, bytes@) {
                None => (CycleModel { buf: feed_rest(m.buf, bytes@), ..m }, Action::ReadChunk),
                Some(r) => release(
                    CycleModel { buf: feed_rest(m.buf, bytes@), ..m },
                    frame_result(r),
                ),
            },
            Event::Fault(f) => match f {
                ReadFault::Unusable => release(m, Err(AcqError::StreamFailed)),
                _ => (m, Action::ReadChunk),
            },
            _ => (m, Action::Ignore),
        },
        Phase::Releasing(r) => match e {
            Event::TriggerCleared => (with_phase(m, Phase::Finished(r)), Action::Return(r)),
            Event::ClearFailed => (
                with_phase(m, Phase::Finished(after_clear_failed(r))),
                Action::Return(after_clear_failed(r)),
            ),
            _ => (m, Action::Ignore),
        },
        Phase::Finished(_) => (m, Action::Ignore),
    }
}

/// A cycle that has not started yet, settling for `delay_ms` milliseconds.
pub open spec fn initial(delay_ms: u64) -> CycleModel {
    CycleModel { phase: Phase::Idle, buf: Seq::empty(), delay_ms }
}

/// One measurement cycle.
pub struct Cycle {
    phase: Phase,
    frame: FrameAssembler,
    delay_ms: u64,
}

impl View for Cycle {
    type V = CycleModel;

    closed spec fn view(&self) -> CycleModel {
        CycleModel { phase: self.phase, buf: self.frame@, delay_ms: self.delay_ms }
    }
}

fn to_acq_result(r: Result<u16, FrameError>) -> (o: Result<u16, AcqError>)
    ensures
        o == frame_result(r),
{
    match r {
        Ok(v) => Ok(v),
        Err(FrameError::InvalidText) => Err(AcqError::InvalidText),
        Err(FrameError::InvalidNumber) => Err(AcqError::InvalidNumber),
    }
}

impl Cycle {
    /// A cycle that has not started, which lets the sensor settle for
    /// `delay_ms` milliseconds after asserting the trigger.
    pub fn new(delay_ms: u64) -> (r: Cycle)
        ensures
            r@ == initial(delay_ms),
    {
        Cycle { phase: Phase::Idle, frame: FrameAssembler::new(), delay_ms }
    }

    /// Where the cycle stands.
    pub fn phase(&self) -> (r: Phase)
        ensures
            r == self@.phase,
    {
        self.phase
    }

    /// Takes in one event and says what to do next.
    pub fn step(&mut self, e: Event) -> (a: Action)
        requires
            is_partial_frame(old(self)@.buf),
        ensures
            (final(self)@, a) == next(old(self)@, e),
            is_partial_frame(final(self)@.buf),
    {
        match self.phase {
            Phase::Idle => match e {
                Event::Begin => {
                    self.phase = Phase::Asserting;
                    Action::AssertTrigger
                },
                _ => Action::Ignore,
            },
            Phase::Asserting => match e {
                Event::TriggerSet => {
                    self.phase = Phase::Stabilizing;
                    Action::Wait(self.delay_ms)
                },
                Event::TriggerFailed => {
                    self.phase = Phase::Releasing(Err(AcqError::Hardware));
                    Action::DeassertTrigger
                },
                _ => Action::Ignore,
            },
            Phase::Stabilizing => match e {
                Event::Settled => {
                    self.phase = Phase::Opening;
                    Action::OpenPort
                },
                _ => Action::Ignore,
            },
            Phase::Opening => match e {
                Event::PortOpened => {
                    self.phase = Phase::Reading;
                    Action::ReadChunk
                },
                Event::PortUnavailable => {
                    self.phase = Phase::Releasing(Err(AcqError::PortUnavailable));
                    Action::DeassertTrigger
                },
                _ => Action::Ignore,
            },
            Phase::Reading => match e {
                Event::Data(bytes) => match self.frame.feed(bytes.as_slice()) {
                    None => Action::ReadChunk,
                    Some(r) => {
                        self.phase = Phase::Releasing(to_acq_result(r));
                        Action::DeassertTrigger
                    },
                },
                Event::Fault(f) => match f {
                    ReadFault::Unusable => {
                        self.phase = Phase::Releasing(Err(AcqError::StreamFailed));
                        Action::DeassertTrigger
                    },
                    _ => Action::ReadChunk,
                },
                _ => Action::Ignore,
            },
            Phase::Releasing(r) => match e {
                Event::TriggerCleared => {
                    self.phase = Phase::Finished(r);
                    Action::Return(r)
                },
                Event::ClearFailed => {
                    let o = match r {
                        Ok(_) => Err(AcqError::Hardware),
                        Err(e) => Err(e),
                    };
                    self.phase = Phase::Finished(o);
                    Action::Return(o)
                },
                _ => Action::Ignore,
            },
            Phase::Finished(_) => Action::Ignore,
        }
    }
}

/// The state and the actions after a cycle in state `m` has taken in `events`.
pub open spec fn run(m: CycleModel, events: Seq<Event>) -> (CycleModel, Seq<Action>)
    decreases events.len(),
{
    if events.len() == 0 {
        (m, Seq::empty())
    } else {
        let (m1, acts) = run(m, events.drop_last());
        let (m2, a) = next(m1, events.last());
        (m2, acts.push(a))
    }
}

/// How many of `acts` satisfy `f`.
pub open spec fn occurrences(acts: Seq<Action>, f: spec_fn(Action) -> bool) -> nat
    decreases acts.len(),
{
    if acts.len() == 0 {
        0
    } else {
        occurrences(acts.drop_last(), f) + if f(acts.last()) {
            1nat
        } else {
            0nat
        }
    }
}

pub open spec fn is_assert(a: Action) -> bool {
    a == Action::AssertTrigger
}

pub open spec fn is_deassert(a: Action) -> bool {
    a == Action::DeassertTrigger
}

pub open spec fn is_return(a: Action) -> bool {
    a is Return
}

/// Whether the trigger has been asked to be asserted by the time the cycle is in `p`.
pub open spec fn raised(p: Phase) -> bool {
    !(p is Idle)
}

/// Whether the trigger has been asked to be deasserted by the time the cycle is in `p`.
pub open spec fn lowered(p: Phase) -> bool {
    p is Releasing || p is Finished
}

pub open spec fn indicator(b: bool) -> nat {
    if b {
        1
    } else {
        0
    }
}

proof fn lemma_run_counts(delay_ms: u64, events: Seq<Event>)
    ensures
        ({
            let (m, acts) = run(initial(delay_ms), events);
            &&& acts.len() == events.len()
            &&& m.delay_ms == delay_ms
            &&& occurrences(acts, |a: Action| is_assert(a)) == indicator(raised(m.phase))
            &&& occurrences(acts, |a: Action| is_deassert(a)) == indicator(lowered(m.phase))
            &&& occurrences(acts, |a: Action| is_return(a)) == indicator(m.phase is Finished)
        }),
    decreases events.len(),
{
    if events.len() > 0 {
        lemma_run_counts(delay_ms, events.drop_last());
        let (m1, acts) = run(initial(delay_ms), events.drop_last());
        let (m2, a) = next(m1, events.last());
        assert(acts.push(a).drop_last() =~= acts);
    }
}

proof fn lemma_run_prefix(m: CycleModel, events: Seq<Event>, k: int)
    requires
        0 <= k <= events.len(),
    ensures
        run(m, events).1.len() == events.len(),
        run(m, events).1.take(k) == run(m, events.take(k)).1,
    decreases events.len(),
{
    if events.len() > 0 {
        let acts = run(m, events).1;
        if k == events.len() {
            lemma_run_prefix(m, events.drop_last(), k - 1);
            assert(events.take(k) =~= events);
            assert(acts.take(k) =~= acts);
        } else {
            lemma_run_prefix(m, events.drop_last(), k);
            assert(events.drop_last().take(k) =~= events.take(k));
            assert(acts.take(k) =~= run(m, events.drop_last()).1.take(k));
        }
    } else {
        assert(events.take(k) =~= events);
        assert(run(m, events).1.take(k) =~= run(m, events).1);
    }
}

/// Whatever happens during a cycle, at every point of its actions so far the
/// trigger has been asserted at most once, deasserted no more often than it
/// was asserted, and the result returned no more often than the trigger was
/// deasserted. A cycle that returns has asserted and then deasserted the
/// trigger exactly once each, also when it fails after asserting.
pub proof fn lemma_trigger_once(delay_ms: u64, events: Seq<Event>)
    ensures
        ({
            let acts = run(initial(delay_ms), events).1;
            &&& forall|k: int|
                0 <= k <= acts.len() ==> {
                    let pre = #[trigger] acts.take(k);
                    &&& occurrences(pre, |a: Action| is_assert(a)) <= 1
                    &&& occurrences(pre, |a: Action| is_deassert(a)) <= occurrences(
                        pre,
                        |a: Action| is_assert(a),
                    )
                    &&& occurrences(pre, |a: Action| is_return(a)) <= occurrences(
                        pre,
                        |a: Action| is_deassert(a),
                    )
                }
            &&& occurrences(acts, |a: Action| is_return(a)) > 0 ==> {
                &&& occurrences(acts, |a: Action| is_assert(a)) == 1
                &&& occurrences(acts, |a: Action| is_deassert(a)) == 1
            }
        }),
{
    let acts = run(initial(delay_ms), events).1;
    lemma_run_counts(delay_ms, events);
    assert forall|k: int| 0 <= k <= acts.len() implies {
        let pre = #[trigger] acts.take(k);
        &&& occurrences(pre, |a: Action| is_assert(a)) <= 1
        &&& occurrences(pre, |a: Action| is_deassert(a)) <= occurrences(
            pre,
            |a: Action| is_assert(a),
        )
        &&& occurrences(pre, |a: Action| is_return(a)) <= occurrences(
            pre,
            |a: Action| is_deassert(a),
        )
    } by {
        lemma_run_prefix(initial(delay_ms), events, k);
        lemma_run_counts(delay_ms, events.take(k));
    }
}

proof fn lemma_run_append(m: CycleModel, x: Seq<Event>, y: Seq<Event>)
    ensures
        run(m, x + y) == (
            run(run(m, x).0, y).0,
            run(m, x).1 + run(run(m, x).0, y).1,
        ),
    decreases y.len(),
{
    let mx = run(m, x).0;
    if y.len() == 0 {
        assert(x + y =~= x);
        assert(run(m, x).1 + Seq::<Action>::empty() =~= run(m, x).1);
    } else {
        assert((x + y).drop_last() =~= x + y.drop_last());
        assert((x + y).last() == y.last());
        lemma_run_append(m, x, y.drop_last());
        let s = run(mx, y.drop_last()).1;
        let a = next(run(mx, y.drop_last()).0, y.last()).1;
        assert(run(m, x).1 + s.push(a) =~= (run(m, x).1 + s).push(a));
    }
}

/// A read timeout, or a passing read failure, at any point while the cycle is
/// reading leaves the cycle exactly as it was and asks for another read: it
/// never ends the cycle, and whatever follows is taken in as if it had not
/// happened.
pub proof fn lemma_timeout_keeps_reading(
    m: CycleModel,
    before: Seq<Event>,
    f: ReadFault,
    after: Seq<Event>,
)
    requires
        run(m, before).0.phase is Reading,
        f != ReadFault::Unusable,
    ensures
        next(run(m, before).0, Event::Fault(f)) == (run(m, before).0, Action::ReadChunk),
        run(m, before + seq![Event::Fault(f)] + after).0 == run(m, before + after).0,
        run(m, before + seq![Event::Fault(f)] + after).1 == run(m, before).1 + seq![
            Action::ReadChunk,
        ] + run(run(m, before).0, after).1,
        run(m, before + after).1 == run(m, before).1 + run(run(m, before).0, after).1,
{
    let mb = run(m, before).0;
    let t = seq![Event::Fault(f)];
    lemma_run_append(m, before, after);
    lemma_run_append(m, before + t, after);
    lemma_run_append(m, before, t);
    assert(t.drop_last() =~= Seq::<Event>::empty());
    assert(run(mb, t) == (mb, seq![Action::ReadChunk])) by {
        assert(t.last() == Event::Fault(f));
        assert(run(mb, t.drop_last()) == (mb, Seq::<Action>::empty()));
        assert(next(mb, Event::Fault(f)) == (mb, Action::ReadChunk));
        assert(Seq::<Action>::empty().push(Action::ReadChunk) =~= seq![Action::ReadChunk]);
    }
}

/// A port that cannot be opened ends the cycle with the port-unavailable
/// error, after the trigger that was asserted has been deasserted, whether or
/// not deasserting succeeds.
pub proof fn lemma_port_unavailable(delay_ms: u64, cleared: bool)
    ensures
        ({
            let events = seq![
                Event::Begin,
                Event::TriggerSet,
                Event::Settled,
                Event::PortUnavailable,
                if cleared {
                    Event::TriggerCleared
                } else {
                    Event::ClearFailed
                },
            ];
            run(initial(delay_ms), events).1 == seq![
                Action::AssertTrigger,
                Action::Wait(delay_ms),
                Action::OpenPort,
                Action::DeassertTrigger,
                Action::Return(Err(AcqError::PortUnavailable)),
            ]
        }),
{
    let events = seq![
        Event::Begin,
        Event::TriggerSet,
        Event::Settled,
        Event::PortUnavailable,
        if cleared {
            Event::TriggerCleared
        } else {
            Event::ClearFailed
        },
    ];
    let m = initial(delay_ms);
    assert(events.drop_last().drop_last().drop_last().drop_last().drop_last() =~= Seq::<
        Event,
    >::empty());
    reveal_with_fuel(run, 6);
    assert(run(m, events).1 =~= seq![
        Action::AssertTrigger,
        Action::Wait(delay_ms),
        Action::OpenPort,
        Action::DeassertTrigger,
        Action::Return(Err(AcqError::PortUnavailable)),
    ]);
}

} // verus!
