use aien::abi::{
    DecodeOutput, ModelConfig, SamplingParams, ScheduledBatch, SequenceRequest,
};
use aien::backends::{MaxServingBackend, MockInferenceBackend, NativeCpuInferenceBackend};
use aien::surface::{total_memory_gb, ExecutionSurface, MachineReport};
use std::collections::HashMap;

fn batch(id: u64, prompt: Vec<u32>, decode: Vec<u64>, step_id: u64) -> ScheduledBatch {
    let mut block_tables = HashMap::new();
    block_tables.insert(id, vec![0]);
    ScheduledBatch {
        prefill_requests: vec![SequenceRequest {
            request_id: id,
            prompt_tokens: prompt,
            sampling_params: SamplingParams::default(),
            arrival_time_ns: 0,
            priority: 1,
        }],
        decode_requests: decode,
        block_tables,
        step_id,
    }
}

fn token(output: &DecodeOutput) -> (u64, u32, f32) {
    match output {
        DecodeOutput::Token { request_id, token_id, logprob } => {
            (*request_id, *token_id, f32::from_bits(logprob.unwrap()))
        }
        _ => panic!("Expected a token"),
    }
}

#[test]
fn test_mock_inference_backend() {
    let mut backend = MockInferenceBackend::new(10);
    let config = ModelConfig::default();
    backend.load_model(&config).unwrap();

    let req = SequenceRequest {
        request_id: 1,
        prompt_tokens: vec![1, 2, 3, 4],
        sampling_params: SamplingParams::default(),
        arrival_time_ns: 0,
        priority: 10,
    };

    let mut block_tables = HashMap::new();
    block_tables.insert(1, vec![0]);

    let batch = ScheduledBatch {
        prefill_requests: vec![req],
        decode_requests: vec![],
        block_tables,
        step_id: 1,
    };

    let (outputs, metrics) = backend.execute_step(&batch, 0).unwrap();
    assert_eq!(outputs.len(), 1);
    assert_eq!(metrics.prefill_tokens_processed, 4);
}

#[test]
fn test_max_serving_backend() {
    let mut backend = MaxServingBackend::new(
        "http://127.0.0.1:18006".to_string(),
        "atlas-lightning-omni".to_string(),
    );
    let config = ModelConfig::default();
    backend.load_model(&config).unwrap();

    let req = SequenceRequest {
        request_id: 2,
        prompt_tokens: vec![10, 20],
        sampling_params: SamplingParams::default(),
        arrival_time_ns: 0,
        priority: 5,
    };

    let mut block_tables = HashMap::new();
    block_tables.insert(2, vec![0]);

    let batch = ScheduledBatch {
        prefill_requests: vec![req],
        decode_requests: vec![],
        block_tables,
        step_id: 1,
    };

    let (outputs, metrics) = backend.execute_step(&batch, 0).unwrap();
    assert_eq!(outputs.len(), 1);
    assert_eq!(metrics.prefill_tokens_processed, 2);
}

#[test]
fn test_native_cpu_inference_backend() {
    let surface = ExecutionSurface::linux_cpu(Some(8), None);
    assert!(!surface.display_name().is_empty());

    let mut backend = NativeCpuInferenceBackend::new(surface, Some(8));
    let config = ModelConfig::default();
    backend.load_model(&config).unwrap();

    let req = SequenceRequest {
        request_id: 42,
        prompt_tokens: vec![1, 2, 3, 4],
        sampling_params: SamplingParams::default(),
        arrival_time_ns: 0,
        priority: 1,
    };

    let mut block_tables = HashMap::new();
    block_tables.insert(42, vec![0]);

    let batch = ScheduledBatch {
        prefill_requests: vec![req],
        decode_requests: vec![],
        block_tables,
        step_id: 1,
    };

    let (outputs, metrics) = backend.execute_step(&batch, 0, 0, 0).unwrap();
    assert_eq!(outputs.len(), 1);
    assert_eq!(metrics.prefill_tokens_processed, 4);
    assert!(metrics.step_latency_us > 0);
}

#[test]
fn mock_answers() {
    let backend = MockInferenceBackend::new(7);
    let (outputs, metrics) = backend.execute_step(&batch(5, vec![1, 2], vec![8, 9], 3), 4).unwrap();
    assert_eq!(token(&outputs[0]), (5, 100, -0.05));
    assert_eq!(token(&outputs[1]), (8, 101, -0.02));
    assert_eq!(token(&outputs[2]), (9, 101, -0.02));
    assert_eq!(metrics.step_latency_us, 11);
    assert_eq!(metrics.decode_tokens_emitted, 3);
    assert_eq!(metrics.active_kv_blocks, 1);
}

#[test]
fn max_answers() {
    let backend = MaxServingBackend::new("a".to_string(), "b".to_string());
    let (outputs, metrics) = backend.execute_step(&batch(5, vec![1], vec![8], 203), 6).unwrap();
    assert_eq!(token(&outputs[0]), (5, 151646, -0.03));
    assert_eq!(token(&outputs[1]), (8, 151646, -0.01));
    assert_eq!(metrics.step_latency_us, 6);
}

#[test]
fn cpu_answers() {
    let backend = NativeCpuInferenceBackend::new(ExecutionSurface::unix_cpu(Some(2)), None);
    assert_eq!(backend.cpu_cores, 2);
    assert_eq!(f64::from_bits(backend.memory_bandwidth_gb_s), 60.0);
    let (outputs, metrics) =
        backend.execute_step(&batch(5, vec![1, 2], vec![8], 3), 4, 10, 20).unwrap();
    let mixed = |id: u64| -> u32 {
        let h = id
            .wrapping_mul(6364136223846793005)
            .wrapping_add(3u64.wrapping_mul(1442695040888963407));
        (h % 151643) as u32 + 100
    };
    assert_eq!(token(&outputs[0]), (5, mixed(5), -0.04));
    assert_eq!(token(&outputs[1]), (8, mixed(8), -0.02));
    // Fixed costs of 18 and 12 milliseconds come on top.
    assert_eq!(metrics.step_latency_us, 4 + 10 + 18000 + 20 + 12000);
    let gpu = ExecutionSurface::from_nvidia_listing("NVIDIA GB10, 1 MiB").unwrap();
    let backend = NativeCpuInferenceBackend::new(gpu, None);
    assert_eq!(backend.cpu_cores, 8);
    assert_eq!(f64::from_bits(backend.memory_bandwidth_gb_s), 500.0);
    let apple = ExecutionSurface::apple_silicon(None, None);
    let backend = NativeCpuInferenceBackend::new(apple, Some(3));
    assert_eq!(backend.cpu_cores, 3);
    assert_eq!(f64::from_bits(backend.memory_bandwidth_gb_s), 150.0);
}

#[test]
fn listed_gpus() {
    let s = ExecutionSurface::from_nvidia_listing("  NVIDIA GB10 , 122880 MiB\nother, 1 MiB");
    assert_eq!(s.unwrap().display_name(), "NVIDIA GB10 (121 GB Unified Memory)");
    let s = ExecutionSurface::from_nvidia_listing("NVIDIA GeForce RTX 4090, 24564 MiB\r\n").unwrap();
    assert_eq!(s.display_name(), "NVIDIA GeForce RTX 4090 (23 GB VRAM)");
    assert!(s.is_accelerated_gpu());
    let s = ExecutionSurface::from_nvidia_listing("Tesla").unwrap();
    assert_eq!(s.display_name(), "Tesla (24 GB VRAM)");
    let s = ExecutionSurface::from_nvidia_listing("Tesla, unknown").unwrap();
    assert_eq!(s.display_name(), "Tesla (24 GB VRAM)");
    assert!(ExecutionSurface::from_nvidia_listing("").is_none());
}

#[test]
fn a_gpu_comes_first() {
    let linux = || MachineReport::Linux { cores: Some(2), memory: None };
    let s = ExecutionSurface::detect(Some("Tesla T4, 15360 MiB"), linux());
    assert_eq!(s.display_name(), "Tesla T4 (15 GB VRAM)");
    let s = ExecutionSurface::detect(Some(""), linux());
    assert_eq!(s.display_name(), "Linux CPU (2 Cores, 16 GB RAM)");
    let s = ExecutionSurface::detect(None, MachineReport::OtherUnix { cores: None });
    assert_eq!(s.display_name(), "Unix CPU (4 Cores, 8 GB RAM)");
    let mac = MachineReport::MacOs { brand: Some("Apple M1"), size: Some("8589934592") };
    let s = ExecutionSurface::detect(None, mac);
    assert_eq!(s.display_name(), "Apple M1 (8 GB Unified Memory)");
}

#[test]
fn other_surfaces() {
    let s = ExecutionSurface::apple_silicon(Some(" Apple M3 \n"), Some("38654705664\n"));
    assert_eq!(s.display_name(), "Apple M3 (36 GB Unified Memory)");
    assert!(!s.is_accelerated_gpu());
    let s = ExecutionSurface::apple_silicon(Some("\n"), Some("x"));
    assert_eq!(s.display_name(), "Apple Silicon (16 GB Unified Memory)");
    let report = "MemFree: 5 kB\nMemTotal:       65833576 kB\n";
    let s = ExecutionSurface::linux_cpu(None, Some(report));
    assert_eq!(s.display_name(), "Linux CPU (8 Cores, 62 GB RAM)");
    let s = ExecutionSurface::linux_cpu(Some(4), Some("MemTotal: lots"));
    assert_eq!(s.display_name(), "Linux CPU (4 Cores, 16 GB RAM)");
    let s = ExecutionSurface::unix_cpu(None);
    assert_eq!(s.display_name(), "Unix CPU (4 Cores, 8 GB RAM)");
    assert_eq!(total_memory_gb("MemTotal: 1048576\nMemTotal: 2097152", 7), 2);
    assert_eq!(total_memory_gb("", 7), 7);
}

#[test]
fn model_sizes() {
    let t = ModelConfig::tinyllama_1_1b();
    assert_eq!((t.hidden_dim(), t.intermediate_dim(), t.vocab_size()), (2048, 5632, 32000));
    assert_eq!(f32::from_bits(t.rms_norm_eps), 1e-5);
    let d = ModelConfig::default();
    assert_eq!((d.hidden_dim(), d.intermediate_dim(), d.vocab_size()), (4096, 14336, 151936));
    assert_eq!(f32::from_bits(d.rms_norm_eps), 1e-6);
    assert_eq!(f32::from_bits(d.rope_theta), 10000.0);
    let z = ModelConfig { hidden_dim: 0, intermediate_dim: 0, vocab_size: 0, ..d };
    assert_eq!((z.hidden_dim(), z.intermediate_dim(), z.vocab_size()), (4096, 16384, 151936));
    let p = SamplingParams::default();
    assert_eq!((f32::from_bits(p.temperature), f32::from_bits(p.top_p)), (0.7, 0.95));
    assert_eq!((p.max_tokens, p.stop_token_ids), (512, vec![0, 1, 2]));
}
