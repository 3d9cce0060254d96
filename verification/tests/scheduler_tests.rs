use aien::abi::{
    DecodeOutput, FinishReason, SamplingParams, SequenceRequest, StepMetrics,
};
use aien::backends::MockInferenceBackend;
use aien::buffer::HeapUnifiedBuffer;
use aien::completion::{ChannelCompletionSink, CompletionEvent};
use aien::kv_manager::AienKvManager;
use aien::platform::{InferenceWork, KvHandle, ModelHandle, Priority};
use aien::scheduler::AienScheduler;
use aien::scheduler_state::SchedulerConfig;
use aien::sequence::PromptHandle;
use std::sync::Arc;
use tokio::sync::mpsc::unbounded_channel;

type Scheduler = AienScheduler<ChannelCompletionSink>;
type Manager = AienKvManager<HeapUnifiedBuffer>;

/// Builds, executes and completes a step.
fn step(
    scheduler: &mut Scheduler,
    kv: &mut Manager,
    backend: &mut MockInferenceBackend,
) -> Result<Option<(Vec<DecodeOutput>, StepMetrics)>, String> {
    let batch = match scheduler.build_scheduled_batch(kv)? {
        Some(batch) => batch,
        None => return Ok(None),
    };
    let (outputs, metrics) = backend.execute_step(&batch, 0)?;
    let finals = scheduler.complete_step(kv, &batch, &outputs, &metrics, false);
    Ok(Some((finals, metrics)))
}

fn sampling(max_tokens: usize, stop_token_ids: Vec<u32>) -> SamplingParams {
    SamplingParams {
        temperature: 0.0f32.to_bits(),
        top_p: 1.0f32.to_bits(),
        max_tokens,
        stop_token_ids,
    }
}

fn request(id: u64, prompt: usize, max_tokens: usize, priority: u8) -> SequenceRequest {
    SequenceRequest {
        request_id: id,
        prompt_tokens: (0..prompt as u32).collect(),
        sampling_params: sampling(max_tokens, vec![]),
        arrival_time_ns: 0,
        priority,
    }
}

#[test]
fn test_scheduler_lifecycle() {
    let mut kv_manager = AienKvManager::new(100, 16);
    let config = SchedulerConfig::default();
    let mut scheduler = Scheduler::new(config);

    let mut backend = MockInferenceBackend::new(5);

    let req = SequenceRequest {
        request_id: 1,
        prompt_tokens: vec![10, 20, 30, 40],
        sampling_params: SamplingParams {
            temperature: 0.7f32.to_bits(),
            top_p: 0.9f32.to_bits(),
            max_tokens: 3,
            stop_token_ids: vec![999],
        },
        arrival_time_ns: 0,
        priority: 1,
    };

    scheduler.submit_request(req);
    assert_eq!(scheduler.waiting_count(), 1);

    // Step 1: Prefill + first token
    let res1 = step(&mut scheduler, &mut kv_manager, &mut backend).unwrap().unwrap();
    assert_eq!(res1.0.len(), 1);
    assert_eq!(scheduler.running_count(), 1);

    // Step 2: Decode token 2
    let res2 = step(&mut scheduler, &mut kv_manager, &mut backend).unwrap().unwrap();
    assert_eq!(res2.0.len(), 1);
    assert_eq!(scheduler.running_count(), 1);

    // Step 3: Decode token 3 -> hits max_tokens (3), finishes
    let res3 = step(&mut scheduler, &mut kv_manager, &mut backend).unwrap().unwrap();
    assert_eq!(res3.0.len(), 1);
    match &res3.0[0] {
        DecodeOutput::Finished { request_id, reason, total_tokens } => {
            assert_eq!(*request_id, 1);
            assert_eq!(*reason, FinishReason::LengthLimit);
            assert_eq!(*total_tokens, 3);
        }
        _ => panic!("Expected Finished output"),
    }
    assert_eq!(scheduler.running_count(), 0);
    assert_eq!(scheduler.metrics().finished_requests, 1);
}

#[test]
fn test_chunked_prefill_segmentation() {
    let mut kv_manager = AienKvManager::new(100, 16);
    let config = SchedulerConfig {
        max_batch_size: 16,
        max_batch_tokens: 1024,
        max_prefill_tokens: 512,
        prefill_chunk_size: 64, // 64 token chunks
        chunk_prefill: true,
        watermark_blocks: 2,
    };
    let mut scheduler = Scheduler::new(config);
    let mut backend = MockInferenceBackend::new(1);

    // 128 tokens prompt -> should segment into 2 chunks of 64 tokens
    let req = SequenceRequest {
        request_id: 100,
        prompt_tokens: (0..128).collect(),
        sampling_params: SamplingParams {
            temperature: 0.0f32.to_bits(),
            top_p: 1.0f32.to_bits(),
            max_tokens: 2,
            stop_token_ids: vec![],
        },
        arrival_time_ns: 0,
        priority: 1,
    };

    scheduler.submit_request(req);

    // Step 1: Processes chunk 1 (64 tokens, remaining 64)
    let res1 = step(&mut scheduler, &mut kv_manager, &mut backend).unwrap().unwrap();
    assert_eq!(res1.1.prefill_tokens_processed, 64);
    assert_eq!(scheduler.running_count(), 1);

    // Step 2: Processes chunk 2 (64 tokens, completes prompt)
    let res2 = step(&mut scheduler, &mut kv_manager, &mut backend).unwrap().unwrap();
    assert_eq!(res2.1.prefill_tokens_processed, 64);

    // Step 3: Decode begins (1 token generated)
    let res3 = step(&mut scheduler, &mut kv_manager, &mut backend).unwrap().unwrap();
    assert_eq!(res3.1.decode_tokens_emitted, 1);
}

#[test]
fn test_watermark_pressure_preemption() {
    // Pool with 6 blocks, watermark = 3
    let mut kv_manager = AienKvManager::new(6, 16);
    let config = SchedulerConfig {
        max_batch_size: 4,
        max_batch_tokens: 1024,
        max_prefill_tokens: 512,
        prefill_chunk_size: 128,
        chunk_prefill: false,
        watermark_blocks: 3,
    };
    let mut scheduler = Scheduler::new(config);
    let mut backend = MockInferenceBackend::new(1);

    // Req 1 consumes 2 blocks (32 tokens)
    scheduler.submit_request(request(1, 32, 10, 5));

    // Req 2 consumes 2 blocks (32 tokens), lower priority
    scheduler.submit_request(request(2, 32, 10, 1));

    // Step 1: Admits both (free blocks = 6 - 4 = 2, which is < watermark 3)
    step(&mut scheduler, &mut kv_manager, &mut backend).unwrap();

    // Step 2: Memory pressure triggers preemption of lower priority req 2
    step(&mut scheduler, &mut kv_manager, &mut backend).unwrap();
    assert_eq!(scheduler.metrics().preempted_requests, 1);
    assert_eq!(scheduler.preempted_count(), 1);
    assert_eq!(scheduler.running_count(), 1);
}

#[test]
fn test_submit_work_and_completion_router() {
    let mut kv_manager = AienKvManager::new(100, 16);
    let config = SchedulerConfig::default();
    let mut scheduler = Scheduler::new(config);

    let (tx, mut rx) = unbounded_channel();
    let sink = ChannelCompletionSink::new(tx);
    let sink_id = scheduler.completion_router_mut().register(sink);

    let prompt: PromptHandle = Arc::from(vec![101, 102, 103].into_boxed_slice());
    let work = InferenceWork {
        sequence: 50,
        model: ModelHandle(1),
        kv: KvHandle(50),
        priority: Priority::Realtime,
        deadline: None,
        branch_parent: None,
        next_token_budget: 2,
    };

    scheduler
        .submit_work(
            work,
            prompt,
            Some(SamplingParams {
                temperature: 0.0f32.to_bits(),
                top_p: 1.0f32.to_bits(),
                max_tokens: 2,
                stop_token_ids: vec![],
            }),
            Some(sink_id),
        )
        .unwrap();

    assert_eq!(scheduler.waiting_count(), 1);
    assert!(scheduler.arena().contains(50));

    let mut backend = MockInferenceBackend::new(1);

    // Step 1: Prefill + Token 1
    let step1 = step(&mut scheduler, &mut kv_manager, &mut backend).unwrap().unwrap();
    assert_eq!(step1.0.len(), 1);

    let event1 = rx.try_recv().unwrap();
    match event1 {
        CompletionEvent::Token { seq_id, token } => {
            assert_eq!(seq_id, 50);
            assert_eq!(token, 100);
        }
        _ => panic!("Expected token event"),
    }

    // Step 2: Token 2 -> finishes
    let step2 = step(&mut scheduler, &mut kv_manager, &mut backend).unwrap().unwrap();
    assert_eq!(step2.0.len(), 1);

    let event2 = rx.try_recv().unwrap();
    match event2 {
        CompletionEvent::Token { seq_id, token } => {
            assert_eq!(seq_id, 50);
            assert_eq!(token, 101);
        }
        _ => panic!("Expected token event"),
    }

    let event3 = rx.try_recv().unwrap();
    match event3 {
        CompletionEvent::Finished { seq_id, finish_reason, total_tokens } => {
            assert_eq!(seq_id, 50);
            assert_eq!(finish_reason, FinishReason::LengthLimit);
            assert_eq!(total_tokens, 2);
        }
        _ => panic!("Expected finished event"),
    }
}

#[test]
fn test_build_batch_plan_structure() {
    let mut kv_manager: Manager = AienKvManager::new(100, 16);
    let config = SchedulerConfig::default();
    let mut scheduler = Scheduler::new(config);

    let prompt: PromptHandle = Arc::from(vec![1, 2, 3, 4].into_boxed_slice());
    let work = InferenceWork {
        sequence: 77,
        model: ModelHandle(0),
        kv: KvHandle(77),
        priority: Priority::Normal,
        deadline: None,
        branch_parent: None,
        next_token_budget: 10,
    };

    scheduler.submit_work(work, prompt, None, None).unwrap();

    let plan = scheduler.build_batch_plan(&mut kv_manager).unwrap().unwrap();
    assert_eq!(plan.prefill_spans.len(), 1);
    assert_eq!(plan.prefill_spans[0].seq_id, 77);
    assert_eq!(plan.prefill_spans[0].start_pos, 0);
    assert_eq!(plan.prefill_spans[0].length, 4);
    assert_eq!(plan.decode_items.len(), 0);
    assert_eq!(plan.total_tokens, 4);
}

#[test]
fn finished_sequences_give_their_blocks_back() {
    let mut kv: Manager = AienKvManager::new(20, 4);
    let mut scheduler = Scheduler::new(SchedulerConfig::default());
    let mut backend = MockInferenceBackend::new(0);
    for id in 1..4 {
        scheduler.submit_request(request(id, 5 + id as usize, 4, 1));
    }
    assert!(!scheduler.is_idle());
    let mut steps = 0;
    while !scheduler.is_idle() {
        step(&mut scheduler, &mut kv, &mut backend).unwrap();
        steps += 1;
        assert!(steps < 50);
    }
    assert_eq!(kv.free_block_count(), 20);
    assert_eq!(kv.active_sequence_count(), 0);
    assert_eq!(scheduler.metrics().finished_requests, 3);
    assert_eq!(scheduler.metrics().total_prefill_tokens, 6 + 7 + 8);
}

#[test]
fn a_stop_token_ends_a_sequence() {
    let mut kv: Manager = AienKvManager::new(20, 4);
    let mut scheduler = Scheduler::new(SchedulerConfig::default());
    let mut backend = MockInferenceBackend::new(0);
    let mut req = request(9, 3, 10, 1);
    req.sampling_params.stop_token_ids = vec![101];
    scheduler.submit_request(req);
    step(&mut scheduler, &mut kv, &mut backend).unwrap();
    let (outputs, _) = step(&mut scheduler, &mut kv, &mut backend).unwrap().unwrap();
    assert_eq!(
        outputs,
        vec![DecodeOutput::Finished {
            request_id: 9,
            reason: FinishReason::StopToken,
            total_tokens: 2,
        }]
    );
    assert!(scheduler.is_idle());
    assert_eq!(kv.free_block_count(), 20);
}

#[test]
fn a_full_cache_sets_a_sequence_back() {
    let mut kv: Manager = AienKvManager::new(1, 4);
    let config = SchedulerConfig { watermark_blocks: 0, ..SchedulerConfig::default() };
    let mut scheduler = Scheduler::new(config);
    let mut backend = MockInferenceBackend::new(0);
    scheduler.submit_request(request(9, 4, 10, 1));
    step(&mut scheduler, &mut kv, &mut backend).unwrap();
    assert_eq!(scheduler.running_count(), 0);
    assert_eq!(scheduler.preempted_count(), 1);
    assert_eq!(scheduler.metrics().preempted_requests, 1);
    // It keeps its block and goes on from there.
    assert_eq!(kv.free_block_count(), 0);
    let batch = scheduler.build_scheduled_batch(&mut kv).unwrap().unwrap();
    assert!(batch.prefill_requests.is_empty());
    assert_eq!(batch.decode_requests, vec![9]);
}

#[test]
fn the_lowest_priority_yields_and_of_several_the_smallest_id() {
    let mut kv: Manager = AienKvManager::new(4, 16);
    let config = SchedulerConfig { watermark_blocks: 2, ..SchedulerConfig::default() };
    let mut scheduler = Scheduler::new(config);
    let mut backend = MockInferenceBackend::new(0);
    for (id, priority) in [(5, 3), (7, 1), (6, 1)] {
        scheduler.submit_request(request(id, 4, 10, priority));
    }
    step(&mut scheduler, &mut kv, &mut backend).unwrap();
    assert_eq!(scheduler.running_count(), 3);
    let batch = scheduler.build_scheduled_batch(&mut kv).unwrap().unwrap();
    assert_eq!(scheduler.preempted_count(), 1);
    assert!(kv.get_block_table(6).is_none());
    let mut ids = batch.decode_requests.clone();
    ids.sort();
    assert_eq!(ids, vec![5, 7]);
}

#[test]
fn batches_keep_to_their_limits() {
    let mut kv: Manager = AienKvManager::new(100, 16);
    let config = SchedulerConfig {
        max_batch_size: 3,
        max_batch_tokens: 1024,
        max_prefill_tokens: 100,
        prefill_chunk_size: 40,
        chunk_prefill: true,
        watermark_blocks: 0,
    };
    let mut scheduler = Scheduler::new(config);
    for id in 1..6 {
        scheduler.submit_request(request(id, 60, 5, 1));
    }
    let batch = scheduler.build_scheduled_batch(&mut kv).unwrap().unwrap();
    let lengths: Vec<usize> =
        batch.prefill_requests.iter().map(|r| r.prompt_tokens.len()).collect();
    // A third chunk would exceed the prefill limit.
    assert_eq!(lengths, vec![40, 40]);
    let ids: Vec<u64> = batch.prefill_requests.iter().map(|r| r.request_id).collect();
    assert_eq!(ids, vec![1, 2]);
    assert_eq!(scheduler.waiting_count(), 3);
    for id in &ids {
        assert_eq!(batch.block_tables[id], kv.get_block_table(*id).unwrap().block_ids);
    }
}

#[test]
fn forks_run_on_from_their_parent() {
    let mut kv: Manager = AienKvManager::new(20, 4);
    let mut scheduler = Scheduler::new(SchedulerConfig::default());
    let mut backend = MockInferenceBackend::new(0);
    let (sink, mut rx) = ChannelCompletionSink::channel();
    let sink_id = scheduler.register_completion_sink(sink);
    scheduler.submit_request(request(1, 6, 5, 1));
    assert_eq!(
        scheduler.fork_subagent(&mut kv, 1, 2).unwrap_err(),
        "Parent sequence 1 not found in running pool"
    );
    step(&mut scheduler, &mut kv, &mut backend).unwrap();
    scheduler.fork_subagent_with_sink(&mut kv, 1, 2, Some(sink_id)).unwrap();
    assert_eq!(scheduler.running_count(), 2);
    assert_eq!(kv.metrics().shared_pages, 2);
    assert_eq!(scheduler.arena().get(&2).unwrap().branch_parent, Some(1));
    let (outputs, _) = step(&mut scheduler, &mut kv, &mut backend).unwrap().unwrap();
    assert_eq!(outputs.len(), 2);
    match rx.try_recv().unwrap() {
        CompletionEvent::Token { seq_id, token } => assert_eq!((seq_id, token), (2, 101)),
        _ => panic!("Expected token event"),
    }
    kv.free_sequence(1);
    assert_eq!(
        scheduler.fork_subagent(&mut kv, 1, 3).unwrap_err(),
        "Parent sequence 1 not found"
    );
}

#[test]
fn work_is_submitted_once() {
    let mut scheduler = Scheduler::new(SchedulerConfig::default());
    let work = InferenceWork {
        sequence: 50,
        model: ModelHandle(1),
        kv: KvHandle(50),
        priority: Priority::Normal,
        deadline: None,
        branch_parent: None,
        next_token_budget: 2,
    };
    scheduler.submit_work(work, Arc::from([1u32].as_slice()), None, None).unwrap();
    assert_eq!(
        scheduler.submit_work(work, Arc::from([1u32].as_slice()), None, None).unwrap_err(),
        "Sequence 50 already exists in arena"
    );
    assert_eq!(scheduler.waiting_count(), 1);
}

#[test]
fn an_idle_scheduler_builds_nothing() {
    let mut kv: Manager = AienKvManager::new(20, 4);
    let mut scheduler = Scheduler::new(SchedulerConfig::default());
    assert!(scheduler.build_scheduled_batch(&mut kv).unwrap().is_none());
    assert!(scheduler.build_batch_plan(&mut kv).unwrap().is_none());
}

#[test]
fn tokens_before_the_prompt_is_prefilled_do_not_count() {
    let mut kv: Manager = AienKvManager::new(20, 4);
    let config = SchedulerConfig { prefill_chunk_size: 4, ..SchedulerConfig::default() };
    let mut scheduler = Scheduler::new(config);
    let mut backend = MockInferenceBackend::new(0);
    scheduler.submit_request(request(1, 6, 5, 1));
    let (outputs, metrics) = step(&mut scheduler, &mut kv, &mut backend).unwrap().unwrap();
    assert_eq!(metrics.prefill_tokens_processed, 4);
    assert!(outputs.is_empty());
    let plan = scheduler.build_batch_plan(&mut kv).unwrap().unwrap();
    assert_eq!(plan.prefill_spans[0].start_pos, 4);
    assert_eq!(plan.prefill_spans[0].length, 2);
    assert_eq!(plan.step_id, 2);
}

#[test]
fn records_are_reached_through_the_scheduler() {
    let mut scheduler = Scheduler::new(SchedulerConfig::default());
    scheduler.submit_request(request(4, 3, 5, 1));
    scheduler.arena_mut().record_generated_token(4, 9);
    assert_eq!(scheduler.arena().get(&4).unwrap().total_tokens(), 4);
    assert_eq!(scheduler.completion_router_mut().register(ChannelCompletionSink::channel().0).0, 1);
}

#[test]
fn preempted_requests_come_before_waiting_ones() {
    let mut kv: Manager = AienKvManager::new(2, 16);
    let config = SchedulerConfig { watermark_blocks: 1, ..SchedulerConfig::default() };
    let mut scheduler = Scheduler::new(config);
    let mut backend = MockInferenceBackend::new(0);
    scheduler.submit_request(request(1, 3, 10, 1));
    scheduler.submit_request(request(2, 3, 10, 2));
    step(&mut scheduler, &mut kv, &mut backend).unwrap();
    assert_eq!(kv.free_block_count(), 0);
    scheduler.submit_request(request(3, 3, 10, 9));
    let batch = scheduler.build_scheduled_batch(&mut kv).unwrap().unwrap();
    assert_eq!(batch.decode_requests, vec![2]);
    assert_eq!((scheduler.preempted_count(), scheduler.waiting_count()), (1, 1));
    let batch = scheduler.build_scheduled_batch(&mut kv).unwrap().unwrap();
    assert_eq!(batch.decode_requests, vec![2]);
    assert_eq!(batch.prefill_requests[0].request_id, 1);
    assert_eq!((scheduler.preempted_count(), scheduler.waiting_count()), (0, 1));
}

#[test]
fn a_plan_after_preemption_starts_the_prompt_again() {
    let mut kv: Manager = AienKvManager::new(6, 16);
    let config = SchedulerConfig {
        max_batch_size: 4,
        max_batch_tokens: 1024,
        max_prefill_tokens: 512,
        prefill_chunk_size: 128,
        chunk_prefill: false,
        watermark_blocks: 3,
    };
    let mut scheduler = Scheduler::new(config);
    let mut backend = MockInferenceBackend::new(1);
    scheduler.submit_request(request(1, 32, 10, 5));
    scheduler.submit_request(request(2, 32, 10, 1));
    step(&mut scheduler, &mut kv, &mut backend).unwrap();
    assert_eq!(scheduler.arena().get(&2).unwrap().prompt_tokens_prefilled, 32);
    step(&mut scheduler, &mut kv, &mut backend).unwrap();
    assert_eq!(scheduler.preempted_count(), 1);
    // The request that gave way is admitted again, from the first token of its prompt.
    let plan = scheduler.build_batch_plan(&mut kv).unwrap().unwrap();
    assert_eq!(plan.prefill_spans.len(), 1);
    assert_eq!(plan.prefill_spans[0].seq_id, 2);
    assert_eq!(plan.prefill_spans[0].start_pos, 0);
    assert_eq!(plan.prefill_spans[0].length, 32);
    assert_eq!(plan.decode_items.len(), 1);
    assert_eq!(plan.decode_items[0].seq_id, 1);
    // Two steps gave it two tokens behind its prompt.
    assert_eq!(plan.decode_items[0].token_pos, 34);
    assert_eq!(plan.total_tokens, 33);
}

#[test]
fn positions_count_every_token_that_was_generated() {
    let mut kv: Manager = AienKvManager::new(1, 4);
    let config = SchedulerConfig { watermark_blocks: 0, ..SchedulerConfig::default() };
    let mut scheduler = Scheduler::new(config);
    let mut backend = MockInferenceBackend::new(0);
    scheduler.submit_request(request(9, 4, 10, 1));
    step(&mut scheduler, &mut kv, &mut backend).unwrap();
    assert_eq!(scheduler.preempted_count(), 1);
    // The token that there was no room for counts as well.
    let plan = scheduler.build_batch_plan(&mut kv).unwrap().unwrap();
    assert_eq!(plan.decode_items[0].seq_id, 9);
    assert_eq!(plan.decode_items[0].token_pos, 5);
}

#[test]
fn a_batch_neither_loses_nor_doubles_a_request() {
    let mut kv: Manager = AienKvManager::new(6, 4);
    let config = SchedulerConfig {
        prefill_chunk_size: 4,
        max_prefill_tokens: 8,
        watermark_blocks: 2,
        ..SchedulerConfig::default()
    };
    let mut scheduler = Scheduler::new(config);
    let mut backend = MockInferenceBackend::new(0);
    for id in 1..8 {
        scheduler.submit_request(request(id, 6, 6, (id % 3) as u8));
    }
    let held = |s: &Scheduler| s.waiting_count() + s.preempted_count() + s.running_count();
    for _ in 0..40 {
        let before = held(&scheduler);
        let batch = scheduler.build_scheduled_batch(&mut kv).unwrap();
        assert_eq!(held(&scheduler), before);
        if let Some(batch) = batch {
            let chunks = batch.prefill_requests.iter();
            assert!(chunks.clone().all(|r| r.prompt_tokens.len() <= 4));
            let mut entries: Vec<u64> = chunks.map(|r| r.request_id).collect();
            entries.extend(batch.decode_requests.iter());
            entries.sort();
            let listed = entries.len();
            entries.dedup();
            assert_eq!(entries.len(), listed);
            assert!(batch.block_tables.keys().all(|id| entries.contains(id)));
            let (outputs, metrics) = backend.execute_step(&batch, 0).unwrap();
            scheduler.complete_step(&mut kv, &batch, &outputs, &metrics, false);
        }
        assert_eq!(held(&scheduler) as u64 + scheduler.metrics().finished_requests, 7);
    }
    assert!(scheduler.metrics().preempted_requests > 0);
}

#[test]
fn a_backend_that_stores_tokens_stores_them_alone() {
    let mut kv: Manager = AienKvManager::new(20, 4);
    let mut scheduler = Scheduler::new(SchedulerConfig::default());
    let mut backend = MockInferenceBackend::new(0);
    scheduler.submit_request(request(1, 6, 5, 1));
    for appends in [true, false] {
        let before = kv.total_tokens(1).unwrap_or(6);
        let batch = scheduler.build_scheduled_batch(&mut kv).unwrap().unwrap();
        let (outputs, metrics) = backend.execute_step(&batch, 0).unwrap();
        scheduler.complete_step(&mut kv, &batch, &outputs, &metrics, appends);
        let stored = if appends { 0 } else { 1 };
        assert_eq!(kv.total_tokens(1), Some(before + stored));
    }
    assert_eq!(scheduler.arena().get(&1).unwrap().total_tokens(), 8);
}

#[test]
fn events_reach_the_receiver_of_their_own_channel() {
    let mut scheduler = Scheduler::new(SchedulerConfig::default());
    let (first, mut first_rx) = ChannelCompletionSink::channel();
    let (second, mut second_rx) = ChannelCompletionSink::channel();
    let first_id = scheduler.register_completion_sink(first);
    let second_id = scheduler.register_completion_sink(second);
    let router = scheduler.completion_router_mut();
    router.emit(first_id, CompletionEvent::Token { seq_id: 1, token: 11 });
    router.emit(second_id, CompletionEvent::Token { seq_id: 2, token: 22 });
    let token = |event| match event {
        CompletionEvent::Token { seq_id, token } => (seq_id, token),
        _ => panic!("Expected token event"),
    };
    assert_eq!(token(first_rx.try_recv().unwrap()), (1, 11));
    assert_eq!(token(second_rx.try_recv().unwrap()), (2, 22));
    assert!(first_rx.try_recv().is_err());
    assert!(second_rx.try_recv().is_err());
}
