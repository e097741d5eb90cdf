//! The work of a decoder pool.
//!
//! A worker of the pool takes one job at a time: it feeds the input of the job
//! to a decode pipeline and forwards what the pipeline hands out. The workers'
//! threads and channels are the caller's; what a worker does next is decided here.

use crate::audio::AudioChunk;
use crate::text::{decimal_text, number_text};
use vstd::prelude::*;
use vstd::string::StringExecFns;

verus! {

/// How many jobs wait for a worker: none, so that whoever has a job waits while
/// all workers are busy.
pub const JOB_QUEUE_CAPACITY: usize = 0;

/// How many items the input and the output channel of a job hold.
pub const JOB_CHANNEL_CAPACITY: usize = 32;

/// How long a worker pauses, in microseconds, before it looks for input again or
/// offers a refused chunk again.
pub const PAUSE_MICROS: u64 = 100;

/// The name of a worker.
pub fn worker_name(id: usize) -> (r: String)
    ensures
        r@ == "decoder-worker-"@ + decimal_text(id as nat),
{
    "decoder-worker-".to_owned().concat(number_text(id as u64).as_str())
}

/// Why a pool or one of its decoders refuses a request.
#[derive(Debug, Clone, Copy, PartialEq, Eq, Structural)]
pub enum PoolError {
    /// The workers are gone.
    Shutdown,
    /// The worker has dropped its side of the channel.
    ChannelClosed,
}

impl PoolError {
    /// The text of this error.
    pub fn message(self) -> (r: String)
        ensures
            r@ == (match self {
                PoolError::Shutdown => "Decoder pool shutdown"@,
                PoolError::ChannelClosed => "Decoder channel closed"@,
            }),
    {
        match self {
            PoolError::Shutdown => "Decoder pool shutdown".to_owned(),
            PoolError::ChannelClosed => "Decoder channel closed".to_owned(),
        }
    }
}

/// Where a job stands: which answer it is waiting for.
#[derive(Debug, Clone, Copy, PartialEq, Eq, Structural)]
pub enum Phase {
    /// Looking for input.
    Reading,
    /// A chunk was offered to the pipeline, waiting for its acceptance.
    Offering,
    /// Collecting the output that is ready.
    Draining,
    /// Output was forwarded while collecting what is ready.
    Forwarding,
    /// The input has ended, waiting for the remaining output.
    Finishing,
    /// Output was forwarded after the input had ended.
    ForwardingLast,
    /// All output was forwarded.
    Done,
    /// Nobody takes the output any more.
    Aborted,
}

/// What happened in answer to the last action.
#[derive(Debug)]
pub enum JobEvent {
    /// There was input. An empty chunk says that the input ends.
    Input(Vec<u8>),
    /// There was no input yet.
    NoInput,
    /// The sender of the input is gone.
    InputClosed,
    /// Whether the pipeline took the chunk that was offered.
    Offered(bool),
    /// The pipeline handed out a result.
    Output(Result<AudioChunk, String>),
    /// The pipeline had nothing to hand out.
    NoOutput,
    /// Whether the receiver took the output that was forwarded.
    Forwarded(bool),
}

/// What a worker is to do for a job. `B` is a run of bytes.
#[derive(Debug)]
pub enum JobAction<B> {
    /// Pause, then look for input without waiting.
    PauseAndTryInput,
    /// Offer a chunk to the pipeline.
    Offer(B),
    /// Pause, then offer a chunk to the pipeline.
    PauseAndOffer(B),
    /// Tell the pipeline that the input has ended.
    SignalEnd,
    /// Ask the pipeline for output without waiting.
    TryOutput,
    /// Wait for output of the pipeline or its end.
    AwaitOutput,
    /// Forward a result to the receiver.
    Forward(Result<AudioChunk, String>),
    /// The job is over.
    Stop,
}

impl JobAction<Vec<u8>> {
    /// This action with its bytes as a sequence.
    pub open spec fn model(self) -> JobAction<Seq<u8>> {
        match self {
            JobAction::PauseAndTryInput => JobAction::PauseAndTryInput,
            JobAction::Offer(b) => JobAction::Offer(b@),
            JobAction::PauseAndOffer(b) => JobAction::PauseAndOffer(b@),
            JobAction::SignalEnd => JobAction::SignalEnd,
            JobAction::TryOutput => JobAction::TryOutput,
            JobAction::AwaitOutput => JobAction::AwaitOutput,
            JobAction::Forward(result) => JobAction::Forward(result),
            JobAction::Stop => JobAction::Stop,
        }
    }
}

/// A list of actions with their bytes as sequences.
pub open spec fn actions_model(actions: Seq<JobAction<Vec<u8>>>) -> Seq<JobAction<Seq<u8>>> {
    actions.map_values(|a: JobAction<Vec<u8>>| a.model())
}

/// A job in the abstract.
pub struct JobModel {
    pub phase: Phase,
    /// The chunk that the pipeline has not taken yet.
    pub pending: Seq<u8>,
    /// Whether the input has ended.
    pub input_done: bool,
}

/// A job that has just been taken up.
pub open spec fn fresh_job() -> JobModel {
    JobModel { phase: Phase::Reading, pending: seq![], input_done: false }
}

/// The input of the job has ended.
pub open spec fn end_input(m: JobModel) -> (JobModel, Seq<JobAction<Seq<u8>>>) {
    (
        JobModel { phase: Phase::Draining, input_done: true, ..m },
        seq![JobAction::SignalEnd, JobAction::TryOutput],
    )
}

/// One step of a job: the next state and what is to be done. An event that is no
/// answer to what the job waits for changes nothing.
pub open spec fn job_step(m: JobModel, event: JobEvent) -> (JobModel, Seq<JobAction<Seq<u8>>>) {
    match (m.phase, event) {
        (Phase::Reading, JobEvent::Input(data)) => if data@.len() == 0 {
            end_input(m)
        } else {
            (
                JobModel { phase: Phase::Offering, pending: data@, ..m },
                seq![JobAction::Offer(data@)],
            )
        },
        (Phase::Reading, JobEvent::NoInput) => (
            JobModel { phase: Phase::Draining, ..m },
            seq![JobAction::TryOutput],
        ),
        (Phase::Reading, JobEvent::InputClosed) => end_input(m),
        (Phase::Offering, JobEvent::Offered(taken)) => if taken {
            (
                JobModel { phase: Phase::Draining, pending: seq![], ..m },
                seq![JobAction::TryOutput],
            )
        } else {
            (m, seq![JobAction::PauseAndOffer(m.pending)])
        },
        (Phase::Draining, JobEvent::Output(result)) => (
            JobModel { phase: Phase::Forwarding, ..m },
            seq![JobAction::Forward(result)],
        ),
        (Phase::Draining, JobEvent::NoOutput) => if m.input_done {
            (JobModel { phase: Phase::Finishing, ..m }, seq![JobAction::AwaitOutput])
        } else {
            (JobModel { phase: Phase::Reading, ..m }, seq![JobAction::PauseAndTryInput])
        },
        (Phase::Forwarding, JobEvent::Forwarded(taken)) => if taken {
            (JobModel { phase: Phase::Draining, ..m }, seq![JobAction::TryOutput])
        } else {
            (JobModel { phase: Phase::Aborted, ..m }, seq![JobAction::Stop])
        },
        (Phase::Finishing, JobEvent::Output(result)) => (
            JobModel { phase: Phase::ForwardingLast, ..m },
            seq![JobAction::Forward(result)],
        ),
        (Phase::Finishing, JobEvent::NoOutput) => (
            JobModel { phase: Phase::Done, ..m },
            seq![JobAction::Stop],
        ),
        (Phase::ForwardingLast, JobEvent::Forwarded(taken)) => if taken {
            (JobModel { phase: Phase::Finishing, ..m }, seq![JobAction::AwaitOutput])
        } else {
            (JobModel { phase: Phase::Aborted, ..m }, seq![JobAction::Stop])
        },
        _ => (m, seq![]),
    }
}

/// A decode job of a worker.
#[derive(Debug)]
pub struct DecodeJob {
    phase: Phase,
    pending: Vec<u8>,
    input_done: bool,
}

impl View for DecodeJob {
    type V = JobModel;

    closed spec fn view(&self) -> JobModel {
        JobModel { phase: self.phase, pending: self.pending@, input_done: self.input_done }
    }
}

impl DecodeJob {
    /// Takes up a job. The first thing to do for it is to look for input.
    pub fn new() -> (r: Self)
        ensures
            r@ == fresh_job(),
    {
        let r = DecodeJob { phase: Phase::Reading, pending: Vec::new(), input_done: false };
        assert(r@.pending =~= seq![]);
        r
    }

    /// Where the job stands.
    pub fn phase(&self) -> (r: Phase)
        ensures
            r == self@.phase,
    {
        self.phase
    }

    /// Takes the answer to the last action and says what to do next, in order.
    pub fn process_job(&mut self, event: JobEvent) -> (r: Vec<JobAction<Vec<u8>>>)
        ensures
            (final(self)@, actions_model(r@)) == job_step(old(self)@, event),
    {
        let mut actions: Vec<JobAction<Vec<u8>>> = Vec::new();
        match self.phase {
            Phase::Reading => {
                match event {
                    JobEvent::Input(data) => {
                        if data.is_empty() {
                            self.input_done = true;
                            self.phase = Phase::Draining;
                            actions.push(JobAction::SignalEnd);
                            actions.push(JobAction::TryOutput);
                        } else {
                            self.pending = data;
                            self.phase = Phase::Offering;
                            actions.push(JobAction::Offer(self.copy_pending()));
                        }
                    },
                    JobEvent::NoInput => {
                        self.phase = Phase::Draining;
                        actions.push(JobAction::TryOutput);
                    },
                    JobEvent::InputClosed => {
                        self.input_done = true;
                        self.phase = Phase::Draining;
                        actions.push(JobAction::SignalEnd);
                        actions.push(JobAction::TryOutput);
                    },
                    _ => {},
                }
            },
            Phase::Offering => {
                if let JobEvent::Offered(taken) = event {
                    if taken {
                        self.pending = Vec::new();
                        self.phase = Phase::Draining;
                        actions.push(JobAction::TryOutput);
                        assert(self.pending@ =~= seq![]);
                    } else {
                        actions.push(JobAction::PauseAndOffer(self.copy_pending()));
                    }
                }
            },
            Phase::Draining => {
                match event {
                    JobEvent::Output(result) => {
                        self.phase = Phase::Forwarding;
                        actions.push(JobAction::Forward(result));
                    },
                    JobEvent::NoOutput => {
                        if self.input_done {
                            self.phase = Phase::Finishing;
                            actions.push(JobAction::AwaitOutput);
                        } else {
                            self.phase = Phase::Reading;
                            actions.push(JobAction::PauseAndTryInput);
                        }
                    },
                    _ => {},
                }
            },
            Phase::Forwarding => {
                if let JobEvent::Forwarded(taken) = event {
                    if taken {
                        self.phase = Phase::Draining;
                        actions.push(JobAction::TryOutput);
                    } else {
                        self.phase = Phase::Aborted;
                        actions.push(JobAction::Stop);
                    }
                }
            },
            Phase::Finishing => {
                match event {
                    JobEvent::Output(result) => {
                        self.phase = Phase::ForwardingLast;
                        actions.push(JobAction::Forward(result));
                    },
                    JobEvent::NoOutput => {
                        self.phase = Phase::Done;
                        actions.push(JobAction::Stop);
                    },
                    _ => {},
                }
            },
            Phase::ForwardingLast => {
                if let JobEvent::Forwarded(taken) = event {
                    if taken {
                        self.phase = Phase::Finishing;
                        actions.push(JobAction::AwaitOutput);
                    } else {
                        self.phase = Phase::Aborted;
                        actions.push(JobAction::Stop);
                    }
                }
            },
            _ => {},
        }
        assert(actions_model(actions@) =~= job_step(old(self)@, event).1);
        actions
    }

    fn copy_pending(&self) -> (r: Vec<u8>)
        ensures
            r@ == self@.pending,
    {
        let r: Vec<u8> = self.pending.clone();
        assert(r@ =~= self.pending@);
        r
    }
}

// ---------------------------------------------------------------------------
// What holds of whole jobs
// ---------------------------------------------------------------------------

/// Whether an event is an answer to what a job in this phase waits for.
pub open spec fn answers(phase: Phase, event: JobEvent) -> bool {
    match phase {
        Phase::Reading => event is Input || event is NoInput || event is InputClosed,
        Phase::Offering => event is Offered,
        Phase::Draining | Phase::Finishing => event is Output || event is NoOutput,
        Phase::Forwarding | Phase::ForwardingLast => event is Forwarded,
        Phase::Done | Phase::Aborted => false,
    }
}

/// The state that a run of events leads to, and all that was to be done on the way.
pub open spec fn run(m: JobModel, events: Seq<JobEvent>) -> (JobModel, Seq<JobAction<Seq<u8>>>)
    decreases events.len(),
{
    if events.len() == 0 {
        (m, seq![])
    } else {
        let before = run(m, events.drop_last());
        let step = job_step(before.0, events.last());
        (step.0, before.1 + step.1)
    }
}

/// A run of events for a job from its beginning, each of which is an answer to
/// what the job waits for.
pub open spec fn answered_run(events: Seq<JobEvent>) -> bool
    decreases events.len(),
{
    events.len() == 0 || (answered_run(events.drop_last()) && answers(
        run(fresh_job(), events.drop_last()).0.phase,
        events.last(),
    ))
}

/// Whether an event ends the input: an empty chunk, or its sender is gone.
pub open spec fn ends_input(event: JobEvent) -> bool {
    event is InputClosed || (event matches JobEvent::Input(data) && data@.len() == 0)
}

/// The chunks of input that came in, in order, without the empty one that ends it.
pub open spec fn inputs_of(events: Seq<JobEvent>) -> Seq<Seq<u8>>
    decreases events.len(),
{
    if events.len() == 0 {
        seq![]
    } else {
        let before = inputs_of(events.drop_last());
        match events.last() {
            JobEvent::Input(data) => if data@.len() > 0 {
                before.push(data@)
            } else {
                before
            },
            _ => before,
        }
    }
}

/// The chunks that were offered to the pipeline, in order, each as often as it
/// was offered.
pub open spec fn offers_of(actions: Seq<JobAction<Seq<u8>>>) -> Seq<Seq<u8>>
    decreases actions.len(),
{
    if actions.len() == 0 {
        seq![]
    } else {
        match actions.last() {
            JobAction::Offer(data) => offers_of(actions.drop_last()).push(data),
            JobAction::PauseAndOffer(data) => offers_of(actions.drop_last()).push(data),
            _ => offers_of(actions.drop_last()),
        }
    }
}

/// The chunks that the pipeline took, in order: with each acceptance the chunk
/// that was offered last.
pub open spec fn taken_of(events: Seq<JobEvent>) -> Seq<Seq<u8>>
    decreases events.len(),
{
    if events.len() == 0 {
        seq![]
    } else {
        let prior = events.drop_last();
        if events.last() == JobEvent::Offered(true) {
            taken_of(prior).push(offers_of(run(fresh_job(), prior).1).last())
        } else {
            taken_of(prior)
        }
    }
}

/// The results that the pipeline handed out, in order.
pub open spec fn results_of(events: Seq<JobEvent>) -> Seq<Result<AudioChunk, String>>
    decreases events.len(),
{
    if events.len() == 0 {
        seq![]
    } else {
        match events.last() {
            JobEvent::Output(result) => results_of(events.drop_last()).push(result),
            _ => results_of(events.drop_last()),
        }
    }
}

/// The results that were forwarded to the receiver, in order.
pub open spec fn forwards_of(actions: Seq<JobAction<Seq<u8>>>) -> Seq<Result<AudioChunk, String>>
    decreases actions.len(),
{
    if actions.len() == 0 {
        seq![]
    } else {
        match actions.last() {
            JobAction::Forward(result) => forwards_of(actions.drop_last()).push(result),
            _ => forwards_of(actions.drop_last()),
        }
    }
}

/// How often the pipeline was told that the input has ended.
pub open spec fn end_signals(actions: Seq<JobAction<Seq<u8>>>) -> nat
    decreases actions.len(),
{
    if actions.len() == 0 {
        0
    } else {
        end_signals(actions.drop_last()) + (if actions.last() is SignalEnd {
            1nat
        } else {
            0nat
        })
    }
}

proof fn lemma_effects_concat(a: Seq<JobAction<Seq<u8>>>, b: Seq<JobAction<Seq<u8>>>)
    ensures
        offers_of(a + b) == offers_of(a) + offers_of(b),
        forwards_of(a + b) == forwards_of(a) + forwards_of(b),
        end_signals(a + b) == end_signals(a) + end_signals(b),
    decreases b.len(),
{
    if b.len() == 0 {
        assert(a + b =~= a);
    } else {
        lemma_effects_concat(a, b.drop_last());
        assert((a + b).drop_last() =~= a + b.drop_last());
        assert(offers_of(a + b) =~= offers_of(a) + offers_of(b));
        assert(forwards_of(a + b) =~= forwards_of(a) + forwards_of(b));
    }
}

/// What one step offers, forwards and signals.
proof fn lemma_step_effects(m: JobModel, event: JobEvent)
    requires
        answers(m.phase, event),
    ensures
        ({
            let (end, actions) = job_step(m, event);
            &&& offers_of(actions) == (if end.phase is Offering {
                seq![end.pending]
            } else {
                seq![]
            })
            &&& forwards_of(actions) == (match event {
                JobEvent::Output(result) => seq![result],
                _ => seq![],
            })
            &&& end_signals(actions) == (if ends_input(event) {
                1nat
            } else {
                0nat
            })
        }),
{
    reveal_with_fuel(offers_of, 3);
    reveal_with_fuel(forwards_of, 3);
    reveal_with_fuel(end_signals, 3);
    let (end, actions) = job_step(m, event);
    if actions.len() == 1 {
        assert(actions.drop_last() =~= seq![]);
    } else {
        assert(actions.drop_last() =~= seq![actions[0]]);
        assert(actions.drop_last().drop_last() =~= seq![]);
    }
}

/// No input is dropped or reordered: at any time the chunks that the pipeline
/// took, and after them the one that is being offered, are the chunks that came
/// in. A refused chunk is offered until it is taken.
pub proof fn law_job_input(events: Seq<JobEvent>)
    requires
        answered_run(events),
    ensures
        ({
            let (end, actions) = run(fresh_job(), events);
            inputs_of(events) == (if end.phase is Offering {
                taken_of(events).push(offers_of(actions).last())
            } else {
                taken_of(events)
            })
        }),
        run(fresh_job(), events).0.phase is Offering ==> offers_of(
            run(fresh_job(), events).1,
        ).len() > 0 && offers_of(run(fresh_job(), events).1).last() == run(
            fresh_job(),
            events,
        ).0.pending,
    decreases events.len(),
{
    if events.len() > 0 {
        let prior = events.drop_last();
        law_job_input(prior);
        let before = run(fresh_job(), prior);
        lemma_step_effects(before.0, events.last());
        lemma_effects_concat(before.1, job_step(before.0, events.last()).1);
        let (end, actions) = run(fresh_job(), events);
        if end.phase is Offering {
            assert(offers_of(actions).last() == end.pending);
        }
    }
}

/// Everything that the pipeline hands out is forwarded, unchanged and in order.
pub proof fn law_job_output(events: Seq<JobEvent>)
    requires
        answered_run(events),
    ensures
        forwards_of(run(fresh_job(), events).1) == results_of(events),
    decreases events.len(),
{
    if events.len() > 0 {
        let prior = events.drop_last();
        law_job_output(prior);
        let before = run(fresh_job(), prior);
        lemma_step_effects(before.0, events.last());
        lemma_effects_concat(before.1, job_step(before.0, events.last()).1);
        assert(forwards_of(run(fresh_job(), events).1) =~= results_of(events));
    }
}

/// Whether the input of a job was ended.
pub open spec fn input_ended(events: Seq<JobEvent>) -> bool {
    exists|i: int| 0 <= i < events.len() && #[trigger] ends_input(events[i])
}

/// The pipeline is told of the end of its input exactly once, as soon as the
/// input has ended, and a job that is done has told it. A job is given up as soon as
/// the receiver refuses a result, and only then.
pub proof fn law_job_end(events: Seq<JobEvent>)
    requires
        answered_run(events),
    ensures
        ({
            let (end, actions) = run(fresh_job(), events);
            &&& end_signals(actions) == (if input_ended(events) {
                1nat
            } else {
                0nat
            })
            &&& end.input_done == input_ended(events)
            &&& end.phase is Done ==> input_ended(events)
            &&& end.phase is Reading || end.phase is Offering ==> !input_ended(events)
            &&& end.phase is Aborted <==> events.contains(JobEvent::Forwarded(false))
        }),
        run(fresh_job(), events).0.phase is Finishing || run(
            fresh_job(),
            events,
        ).0.phase is ForwardingLast ==> input_ended(events),
    decreases events.len(),
{
    if events.len() > 0 {
        let prior = events.drop_last();
        let event = events.last();
        law_job_end(prior);
        let before = run(fresh_job(), prior);
        lemma_step_effects(before.0, event);
        lemma_effects_concat(before.1, job_step(before.0, event).1);
        assert(input_ended(events) == (input_ended(prior) || ends_input(event))) by {
            if input_ended(prior) {
                let i = choose|i: int| 0 <= i < prior.len() && #[trigger] ends_input(prior[i]);
                assert(ends_input(events[i]));
            }
            if ends_input(event) {
                assert(ends_input(events[events.len() - 1]));
            }
            if input_ended(events) {
                let i = choose|i: int| 0 <= i < events.len() && #[trigger] ends_input(events[i]);
                if i < prior.len() {
                    assert(ends_input(prior[i]));
                }
            }
        }
        let refused = JobEvent::Forwarded(false);
        assert(events.contains(refused) == (prior.contains(refused) || event == refused)) by {
            if prior.contains(refused) {
                let i = choose|i: int| 0 <= i < prior.len() && prior[i] == refused;
                assert(events[i] == refused);
            }
            if event == refused {
                assert(events[events.len() - 1] == refused);
            }
            if events.contains(refused) {
                let i = choose|i: int| 0 <= i < events.len() && events[i] == refused;
                if i < prior.len() {
                    assert(prior[i] == refused);
                }
            }
        }
    }
}

/// Whether an event tells what came of an action.
pub open spec fn replies_to(action: JobAction<Seq<u8>>, event: JobEvent) -> bool {
    match action {
        JobAction::PauseAndTryInput => event is Input || event is NoInput || event is InputClosed,
        JobAction::Offer(_) | JobAction::PauseAndOffer(_) => event is Offered,
        JobAction::TryOutput | JobAction::AwaitOutput => event is Output || event is NoOutput,
        JobAction::Forward(_) => event is Forwarded,
        JobAction::SignalEnd | JobAction::Stop => false,
    }
}

/// What the worker was told last. A job begins with a look for input.
pub open spec fn last_told(actions: Seq<JobAction<Seq<u8>>>) -> JobAction<Seq<u8>> {
    if actions.len() == 0 {
        JobAction::PauseAndTryInput
    } else {
        actions.last()
    }
}

/// How a job stands, as the worker can see it.
#[verifier::spinoff_prover]
proof fn lemma_job_stands(events: Seq<JobEvent>)
    requires
        answered_run(events),
    ensures
        ({
            let (end, actions) = run(fresh_job(), events);
            let told = last_told(actions);
            &&& end.input_done == input_ended(events)
            &&& match end.phase {
                Phase::Reading => told is PauseAndTryInput && !end.input_done,
                Phase::Offering => !end.input_done && (told == JobAction::Offer(end.pending)
                    || told == JobAction::PauseAndOffer(end.pending)),
                Phase::Draining => told is TryOutput,
                Phase::Finishing => told is AwaitOutput && end.input_done,
                Phase::Forwarding => told is Forward && actions.len() >= 2 && actions[actions.len()
                    - 2] is TryOutput,
                Phase::ForwardingLast => told is Forward && actions.len() >= 2
                    && actions[actions.len() - 2] is AwaitOutput && end.input_done,
                Phase::Done | Phase::Aborted => told is Stop,
            }
        }),
    decreases events.len(),
{
    law_job_end(events);
    if events.len() > 0 {
        let prior = events.drop_last();
        lemma_job_stands(prior);
        law_job_end(prior);
        let before = run(fresh_job(), prior);
        let step = job_step(before.0, events.last()).1;
        let actions = run(fresh_job(), events).1;
        assert(actions == before.1 + step);
        assert(step.len() > 0);
        assert(actions.last() == step.last());
        if step.len() == 1 && before.1.len() > 0 {
            assert(actions[actions.len() - 2] == before.1.last());
        }
    }
}

/// A job always waits for the reply to what the worker was told last, and for
/// nothing else: it is never stuck, and it is over exactly when the worker was told
/// to stop.
pub proof fn law_job_waits(events: Seq<JobEvent>, event: JobEvent)
    requires
        answered_run(events),
    ensures
        ({
            let (end, actions) = run(fresh_job(), events);
            &&& answers(end.phase, event) <==> replies_to(last_told(actions), event)
            &&& (end.phase is Done || end.phase is Aborted) <==> last_told(actions) is Stop
        }),
{
    lemma_job_stands(events);
}

/// An event that is no reply to what the worker was told last changes nothing.
pub proof fn law_job_strays(events: Seq<JobEvent>, event: JobEvent)
    requires
        answered_run(events),
        !replies_to(last_told(run(fresh_job(), events).1), event),
    ensures
        run(fresh_job(), events.push(event)) == run(fresh_job(), events),
{
    lemma_job_stands(events);
    assert(events.push(event).drop_last() =~= events);
    assert(run(fresh_job(), events.push(event)).1 =~= run(fresh_job(), events).1);
}

/// What the worker is told next follows from what it was told last and what came
/// of it. Input is offered to the pipeline, again and again until it is taken. After
/// every chunk, and whenever there is no input yet, the output that is ready is
/// fetched and forwarded until there is none; then more input is looked for, or,
/// once the input has ended, the rest of the output is awaited. The worker stops when
/// the pipeline has nothing more to come, or nobody takes the output.
#[verifier::spinoff_prover]
pub proof fn law_job_next(events: Seq<JobEvent>, event: JobEvent)
    requires
        answered_run(events),
        replies_to(last_told(run(fresh_job(), events).1), event),
    ensures
        ({
            let told = run(fresh_job(), events).1;
            let now = run(fresh_job(), events.push(event)).1;
            now == told + (match event {
                JobEvent::Input(data) => if data@.len() > 0 {
                    seq![JobAction::Offer(data@)]
                } else {
                    seq![JobAction::SignalEnd, JobAction::TryOutput]
                },
                JobEvent::InputClosed => seq![JobAction::SignalEnd, JobAction::TryOutput],
                JobEvent::NoInput | JobEvent::Offered(true) => seq![JobAction::TryOutput],
                JobEvent::Offered(false) => match last_told(told) {
                    JobAction::Offer(data) => seq![JobAction::PauseAndOffer(data)],
                    JobAction::PauseAndOffer(data) => seq![JobAction::PauseAndOffer(data)],
                    _ => seq![],
                },
                JobEvent::Output(result) => seq![JobAction::Forward(result)],
                JobEvent::NoOutput => if last_told(told) is AwaitOutput {
                    seq![JobAction::Stop]
                } else if input_ended(events) {
                    seq![JobAction::AwaitOutput]
                } else {
                    seq![JobAction::PauseAndTryInput]
                },
                JobEvent::Forwarded(true) => if told[told.len() - 2] is AwaitOutput {
                    seq![JobAction::AwaitOutput]
                } else {
                    seq![JobAction::TryOutput]
                },
                JobEvent::Forwarded(false) => seq![JobAction::Stop],
            })
        }),
{
    lemma_job_stands(events);
    assert(events.push(event).drop_last() =~= events);
}

/// A job is done only when the pipeline has finished: its input had ended, the
/// worker was waiting for output, and there was none to come. Whoever takes all
/// results therefore gets every one of them.
pub proof fn law_job_done(events: Seq<JobEvent>)
    requires
        answered_run(events),
        events.len() > 0,
        last_told(run(fresh_job(), events).1) is Stop,
    ensures
        ({
            let prior = events.drop_last();
            let told = last_told(run(fresh_job(), prior).1);
            ||| events.last() == JobEvent::Forwarded(false)
            ||| events.last() is NoOutput && told is AwaitOutput && input_ended(prior)
        }),
        run(fresh_job(), events).0.phase is Done ==> events.last() is NoOutput && last_told(
            run(fresh_job(), events.drop_last()).1,
        ) is AwaitOutput && run(fresh_job(), events.drop_last()).0.phase is Finishing,
{
    lemma_job_stands(events);
    lemma_job_stands(events.drop_last());
}

} // verus!
