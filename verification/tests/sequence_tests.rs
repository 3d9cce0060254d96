use aien::abi::{FinishReason, SamplingParams, SequenceRequest};
use aien::completion::{ChannelCompletionSink, CompletionEvent, CompletionRouter, CompletionSink};
use aien::platform::{KvHandle, ModelHandle, Priority};
use aien::sequence::{PromptHandle, SequenceArena, SequencePhase, SequenceRecord};
use std::sync::Arc;
use tokio::sync::mpsc::unbounded_channel;

fn record(id: u64, prompt: &[u32]) -> SequenceRecord {
    SequenceRecord::new(
        id,
        Arc::from(prompt),
        ModelHandle(0),
        KvHandle(id),
        Priority::Normal,
        None,
        None,
        128,
        SamplingParams::default(),
        None,
    )
}

#[test]
fn test_prompt_handle_sharing_and_zero_copy_fork() {
    let prompt_tokens = vec![1, 2, 3, 4, 5];
    let handle: PromptHandle = Arc::from(prompt_tokens.into_boxed_slice());

    let mut arena = SequenceArena::new();
    let record = SequenceRecord::new(
        1,
        handle.clone(),
        ModelHandle(0),
        KvHandle(1),
        Priority::Normal,
        None,
        None,
        128,
        SamplingParams::default(),
        None,
    );

    arena.insert(record).unwrap();
    assert_eq!(arena.len(), 1);

    let child = arena.fork(1, 2, None).unwrap();
    assert_eq!(arena.len(), 2);
    assert_eq!(child.seq_id, 2);
    assert_eq!(child.branch_parent, Some(1));
    assert!(Arc::ptr_eq(&child.prompt, &handle));
}

#[test]
fn test_completion_router_registration_and_dispatch() {
    let (tx, mut rx) = unbounded_channel();
    let sink = ChannelCompletionSink::new(tx);

    let mut router = CompletionRouter::new();
    let sink_id = router.register(sink);

    router.emit(
        sink_id,
        CompletionEvent::Token {
            seq_id: 10,
            token: 42,
        },
    );

    let event = rx.try_recv().unwrap();
    match event {
        CompletionEvent::Token { seq_id, token } => {
            assert_eq!(seq_id, 10);
            assert_eq!(token, 42);
        }
        _ => panic!("Unexpected event"),
    }
}

#[test]
fn events_reach_their_sink_alone() {
    let mut router = CompletionRouter::new();
    let (a, mut rx_a) = ChannelCompletionSink::channel();
    let (b, mut rx_b) = ChannelCompletionSink::channel();
    let a_id = router.register(a);
    let b_id = router.register(b);
    assert_ne!(a_id, b_id);
    router.emit(
        b_id,
        CompletionEvent::Finished {
            seq_id: 3,
            finish_reason: FinishReason::StopToken,
            total_tokens: 9,
        },
    );
    assert!(rx_a.try_recv().is_err());
    match rx_b.try_recv().unwrap() {
        CompletionEvent::Finished { seq_id, finish_reason, total_tokens } => {
            assert_eq!((seq_id, finish_reason, total_tokens), (3, FinishReason::StopToken, 9));
        }
        _ => panic!("Unexpected event"),
    }
    router.broadcast(CompletionEvent::Error { seq_id: 1, message: "lost".to_string() });
    for rx in [&mut rx_a, &mut rx_b] {
        match rx.try_recv().unwrap() {
            CompletionEvent::Error { seq_id, message } => {
                assert_eq!(seq_id, 1);
                assert_eq!(message, "lost");
            }
            _ => panic!("Unexpected event"),
        }
    }
    assert!(router.unregister(a_id).is_some());
    assert!(router.unregister(a_id).is_none());
    router.emit(a_id, CompletionEvent::Token { seq_id: 1, token: 1 });
    assert!(rx_a.try_recv().is_err());
}

#[test]
fn a_dropped_receiver_is_no_error() {
    let (mut sink, rx) = ChannelCompletionSink::channel();
    drop(rx);
    sink.emit(CompletionEvent::Token { seq_id: 1, token: 1 });
}

#[test]
fn sinks_are_numbered_from_one() {
    let mut router = CompletionRouter::new();
    let (a, _rx) = ChannelCompletionSink::channel();
    assert_eq!(router.register(a).0, 1);
    let mut router: CompletionRouter<ChannelCompletionSink> = Default::default();
    let (a, _rx) = ChannelCompletionSink::channel();
    assert_eq!(router.register(a).0, 0);
}

#[test]
fn arena_errors() {
    let mut arena = SequenceArena::new();
    assert!(arena.is_empty());
    arena.insert(record(1, &[1])).unwrap();
    assert_eq!(
        arena.insert(record(1, &[2])).unwrap_err(),
        "Sequence 1 already exists in arena"
    );
    assert_eq!(
        arena.fork(5, 6, None).err().unwrap(),
        "Parent sequence 5 not found in arena"
    );
    arena.insert(record(2, &[2])).unwrap();
    assert_eq!(
        arena.fork(1, 2, None).err().unwrap(),
        "Child sequence 2 already exists in arena"
    );
    assert!(arena.remove(&1).is_some());
    assert!(!arena.contains(1));
    assert!(arena.get(&2).is_some());
    assert!(arena.get_mut(&1).is_none());
}

#[test]
fn prompts_are_prefilled_in_parts() {
    let mut arena = SequenceArena::new();
    arena.insert(record(1, &[1, 2, 3, 4, 5])).unwrap();
    assert_eq!(arena.get(&1).unwrap().remaining_prefill_tokens(), 5);
    arena.record_prefilled_tokens(1, 3);
    assert_eq!(arena.get(&1).unwrap().remaining_prefill_tokens(), 2);
    arena.record_prefilled_tokens(1, 2);
    assert_eq!(arena.get(&1).unwrap().remaining_prefill_tokens(), 0);
    assert_eq!(arena.total_prefilled_tokens(), 5);
    arena.record_generated_token(1, 9);
    arena.record_generated_token(1, 8);
    assert_eq!(arena.get(&1).unwrap().total_tokens(), 7);
    assert_eq!(arena.total_tokens_generated(), 2);
    arena.record_generated_token(99, 8);
    assert_eq!(arena.total_tokens_generated(), 2);
}

#[test]
fn identifiers_are_listed_in_order() {
    let mut arena = SequenceArena::new();
    for id in [3, 1, 2] {
        arena.insert(record(id, &[1])).unwrap();
    }
    arena.set_phase(1, SequencePhase::Finished);
    assert!(arena.get(&1).unwrap().is_finished());
    assert!(!arena.get(&2).unwrap().is_finished());
    assert_eq!(arena.active_ids(), vec![1, 2, 3]);
}

#[test]
fn requests_survive_the_record() {
    let request = SequenceRequest {
        request_id: 4,
        prompt_tokens: vec![7, 8],
        sampling_params: SamplingParams {
            temperature: 0.5f32.to_bits(),
            top_p: 0.25f32.to_bits(),
            max_tokens: 3,
            stop_token_ids: vec![6],
        },
        arrival_time_ns: 0,
        priority: 2,
    };
    let back = SequenceRecord::from_request(request.clone(), None).to_request();
    assert_eq!(back.request_id, 4);
    assert_eq!(back.prompt_tokens, vec![7, 8]);
    assert_eq!(back.sampling_params.stop_token_ids, vec![6]);
    assert_eq!(back.sampling_params.temperature, 0.5f32.to_bits());
    assert_eq!(back.priority, 2);
}

#[test]
fn ranks_of_priorities() {
    assert_eq!(Priority::from_rank(0), Priority::Background);
    assert_eq!(Priority::from_rank(2), Priority::Interactive);
    assert_eq!(Priority::from_rank(200), Priority::Realtime);
    for rank in 0..4 {
        assert_eq!(Priority::from_rank(rank).rank(), rank);
    }
}
