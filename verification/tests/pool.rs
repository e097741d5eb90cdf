use media_api::audio::{AudioChunk, AudioFormat};
use media_api::pool::{worker_name, DecodeJob, JobAction, JobEvent, Phase, PoolError};

fn shown(actions: Vec<JobAction<Vec<u8>>>) -> String {
    format!("{actions:?}")
}

fn failure(text: &str) -> JobEvent {
    JobEvent::Output(Err(text.to_string()))
}

#[test]
fn workers_have_names() {
    assert_eq!(worker_name(0), "decoder-worker-0");
    assert_eq!(worker_name(17), "decoder-worker-17");
}

#[test]
fn errors_have_texts() {
    assert_eq!(PoolError::Shutdown.message(), "Decoder pool shutdown");
    assert_eq!(PoolError::ChannelClosed.message(), "Decoder channel closed");
}

#[test]
fn refused_chunk_is_offered_again() {
    let mut job = DecodeJob::new();
    assert_eq!(shown(job.process_job(JobEvent::Input(vec![1, 2]))), "[Offer([1, 2])]");
    for _ in 0..5 {
        assert_eq!(
            shown(job.process_job(JobEvent::Offered(false))),
            "[PauseAndOffer([1, 2])]"
        );
    }
    assert_eq!(shown(job.process_job(JobEvent::Offered(true))), "[TryOutput]");
    assert_eq!(shown(job.process_job(JobEvent::NoOutput)), "[PauseAndTryInput]");
    assert_eq!(shown(job.process_job(JobEvent::Input(vec![3]))), "[Offer([3])]");
}

#[test]
fn results_are_forwarded_as_they_come() {
    let mut job = DecodeJob::new();
    assert_eq!(shown(job.process_job(JobEvent::NoInput)), "[TryOutput]");
    let chunk = AudioChunk {
        sample_rate: 8000,
        channels: 1,
        bits_per_sample: 16,
        format: AudioFormat::PcmSigned,
        data: vec![5],
    };
    let forwarded = format!("[Forward(Ok({chunk:?}))]");
    assert_eq!(shown(job.process_job(JobEvent::Output(Ok(chunk)))), forwarded);
    assert_eq!(shown(job.process_job(JobEvent::Forwarded(true))), "[TryOutput]");
    assert_eq!(shown(job.process_job(failure("bad"))), "[Forward(Err(\"bad\"))]");
    assert_eq!(shown(job.process_job(JobEvent::Forwarded(true))), "[TryOutput]");
    assert_eq!(shown(job.process_job(JobEvent::NoOutput)), "[PauseAndTryInput]");
}

#[test]
fn end_of_input_is_signalled_and_the_rest_awaited() {
    for end in [JobEvent::Input(vec![]), JobEvent::InputClosed] {
        let mut job = DecodeJob::new();
        assert_eq!(shown(job.process_job(end)), "[SignalEnd, TryOutput]");
        assert_eq!(shown(job.process_job(JobEvent::NoOutput)), "[AwaitOutput]");
        assert_eq!(shown(job.process_job(failure("late"))), "[Forward(Err(\"late\"))]");
        assert_eq!(shown(job.process_job(JobEvent::Forwarded(true))), "[AwaitOutput]");
        assert_eq!(shown(job.process_job(JobEvent::NoOutput)), "[Stop]");
        assert_eq!(job.phase(), Phase::Done);
    }
}

#[test]
fn job_is_given_up_without_a_receiver() {
    let mut job = DecodeJob::new();
    job.process_job(JobEvent::NoInput);
    job.process_job(failure("x"));
    assert_eq!(shown(job.process_job(JobEvent::Forwarded(false))), "[Stop]");
    assert_eq!(job.phase(), Phase::Aborted);
    assert_eq!(shown(job.process_job(JobEvent::NoInput)), "[]");

    let mut job = DecodeJob::new();
    job.process_job(JobEvent::InputClosed);
    job.process_job(JobEvent::NoOutput);
    job.process_job(failure("x"));
    assert_eq!(shown(job.process_job(JobEvent::Forwarded(false))), "[Stop]");
    assert_eq!(job.phase(), Phase::Aborted);
}
