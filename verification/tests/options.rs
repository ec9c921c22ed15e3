//! Session options and the plans they lead to, and decoding options.
use parakeet::decoding::{BeamConfig, DecodingStrategy};
use parakeet::execution::{
    CoreMLComputeUnits, ExecutionProvider, ModelConfig, ProviderOptions, SessionSetting,
};

fn config() -> ModelConfig<u8> {
    ModelConfig::new()
}

#[test]
fn defaults_use_the_cpu() {
    let c = config();
    assert_eq!(c.execution_provider, ExecutionProvider::Cpu);
    assert_eq!((c.intra_threads, c.inter_threads), (4, 1));
    assert!(c.configure.is_none() && c.coreml_cache_dir.is_none());
    assert_eq!(c.coreml_compute_units, CoreMLComputeUnits::CpuAndGpu);
    assert_eq!(c.webgpu_device_id, None);
    assert_eq!(ExecutionProvider::default(), ExecutionProvider::Cpu);
    assert_eq!(CoreMLComputeUnits::default(), CoreMLComputeUnits::CpuAndGpu);
    assert_eq!(c.configure_label(), "None");
    let plan = c.session_plan();
    assert_eq!(plan.len(), 3);
    assert!(matches!(plan[0], SessionSetting::OptimizationLevel(3)));
    assert!(matches!(plan[1], SessionSetting::IntraThreads(4)));
    assert!(matches!(plan[2], SessionSetting::InterThreads(1)));
}

#[test]
fn every_accelerator_falls_back_to_the_cpu() {
    let providers = [
        ExecutionProvider::Cuda,
        ExecutionProvider::TensorRT,
        ExecutionProvider::CoreML,
        ExecutionProvider::DirectML,
        ExecutionProvider::MIGraphX,
        ExecutionProvider::OpenVINO,
        ExecutionProvider::WebGPU,
        ExecutionProvider::NNAPI,
    ];
    for provider in providers {
        let plan = config().with_execution_provider(provider).session_plan();
        match plan.last().unwrap() {
            SessionSetting::ExecutionProviders { accelerator, fallback } => {
                assert!(!accelerator.error_on_failure);
                assert!(fallback.error_on_failure);
                assert!(matches!(fallback.provider, ProviderOptions::Cpu));
                assert!(!matches!(accelerator.provider, ProviderOptions::Cpu));
            }
            _ => panic!("providers come last"),
        }
        let sequential = matches!(
            provider,
            ExecutionProvider::WebGPU | ExecutionProvider::DirectML
        );
        assert_eq!(plan.len(), if sequential { 6 } else { 4 });
        if sequential {
            assert!(matches!(plan[3], SessionSetting::ParallelExecution(false)));
            assert!(matches!(plan[4], SessionSetting::MemoryPattern(false)));
        }
    }
}

#[test]
fn providers_read_their_own_options() {
    let c = config()
        .with_intra_threads(8)
        .with_inter_threads(2)
        .with_coreml_cache_dir("/tmp/cache".to_string())
        .with_coreml_compute_units(CoreMLComputeUnits::CpuOnly)
        .with_webgpu_device_id(3);
    let plan = c.clone().with_execution_provider(ExecutionProvider::CoreML).session_plan();
    assert!(matches!(plan[1], SessionSetting::IntraThreads(8)));
    assert!(matches!(plan[2], SessionSetting::InterThreads(2)));
    match &plan[3] {
        SessionSetting::ExecutionProviders { accelerator, .. } => match &accelerator.provider {
            ProviderOptions::CoreML { compute_units, model_cache_dir } => {
                assert_eq!(*compute_units, CoreMLComputeUnits::CpuOnly);
                assert_eq!(model_cache_dir.as_deref(), Some("/tmp/cache"));
            }
            _ => panic!("CoreML was asked for"),
        },
        _ => panic!("providers come last"),
    }
    let plan = c.with_execution_provider(ExecutionProvider::WebGPU).session_plan();
    match &plan[5] {
        SessionSetting::ExecutionProviders { accelerator, .. } => {
            assert!(matches!(accelerator.provider, ProviderOptions::WebGPU { device_id: Some(3) }));
        }
        _ => panic!("providers come last"),
    }
}

#[test]
fn the_hook_comes_last() {
    let c = config()
        .with_execution_provider(ExecutionProvider::Cuda)
        .with_custom_configure(7);
    assert_eq!(c.configure, Some(7));
    assert_eq!(c.configure_label(), "<fn>");
    let plan = c.session_plan();
    assert_eq!(plan.len(), 5);
    assert!(matches!(plan[4], SessionSetting::Custom));
}

#[test]
fn decoding_defaults() {
    let unified = BeamConfig::default_unified();
    assert_eq!(unified.beam_size, 5);
    assert_eq!(f32::from_bits(unified.length_penalty), 0.013);
    assert_eq!(f32::from_bits(unified.patience), 3.5);
    assert_eq!(unified.max_symbols_per_step, 10);
    assert_eq!(f32::from_bits(unified.duration_reward), 0.67);
    assert_eq!(BeamConfig::default_tdt(), unified);
    assert_eq!(BeamConfig::default(), unified);
    let ctc = BeamConfig::default_ctc();
    assert_eq!(f32::from_bits(ctc.length_penalty), 0.0);
    assert_eq!(f32::from_bits(ctc.patience), 1.0);
    assert_eq!((ctc.beam_size, ctc.max_symbols_per_step), (5, 10));
    assert_eq!(ctc.duration_reward, unified.duration_reward);
}

#[test]
fn greedy_is_the_default_strategy() {
    assert_eq!(DecodingStrategy::default(), DecodingStrategy::Greedy);
    assert!(!DecodingStrategy::Greedy.is_beam());
    assert_eq!(DecodingStrategy::Greedy.beam_config(), None);
    let config = BeamConfig::default_unified();
    assert!(DecodingStrategy::Beam(config).is_beam());
    assert_eq!(DecodingStrategy::Beam(config).beam_config(), Some(config));
}

#[test]
fn parameters_compare_as_numbers() {
    let zero = BeamConfig { length_penalty: 0.0f32.to_bits(), ..BeamConfig::default() };
    let minus_zero = BeamConfig { length_penalty: (-0.0f32).to_bits(), ..BeamConfig::default() };
    assert_eq!(zero, minus_zero);
    assert_eq!(DecodingStrategy::Beam(zero), DecodingStrategy::Beam(minus_zero));
    let no_number = BeamConfig { patience: f32::NAN.to_bits(), ..zero };
    assert_ne!(no_number, no_number);
    assert_ne!(DecodingStrategy::Beam(no_number), DecodingStrategy::Beam(no_number));
    let other = BeamConfig { duration_reward: 0.5f32.to_bits(), ..zero };
    assert_ne!(zero, other);
    assert_ne!(zero, BeamConfig { beam_size: 6, ..zero });
    assert_ne!(zero, BeamConfig { max_symbols_per_step: 6, ..zero });
    assert_ne!(DecodingStrategy::Greedy, DecodingStrategy::Beam(zero));
}
