//! How inference sessions are set up: the execution provider, its options, and
//! the plan of settings that a session builder is put through.
use vstd::prelude::*;

verus! {

/// Hardware acceleration. The CPU is the default and the most reliable; every
/// other provider falls back to it.
#[derive(Debug, Clone, Copy, PartialEq, Eq, Structural)]
pub enum ExecutionProvider {
    Cpu,
    Cuda,
    TensorRT,
    CoreML,
    DirectML,
    MIGraphX,
    OpenVINO,
    WebGPU,
    NNAPI,
}

impl Default for ExecutionProvider {
    fn default() -> (r: Self)
        ensures
            r == ExecutionProvider::Cpu,
    {
        ExecutionProvider::Cpu
    }
}

/// The compute units that the CoreML provider may use.
#[derive(Debug, Clone, Copy, PartialEq, Eq, Structural)]
pub enum CoreMLComputeUnits {
    All,
    CpuAndNeuralEngine,
    CpuAndGpu,
    CpuOnly,
}

impl Default for CoreMLComputeUnits {
    fn default() -> (r: Self)
        ensures
            r == CoreMLComputeUnits::CpuAndGpu,
    {
        CoreMLComputeUnits::CpuAndGpu
    }
}

/// The options of a session. `C` is a hook that puts a session builder through
/// settings of the caller's own.
#[derive(Debug, Clone)]
pub struct ModelConfig<C> {
    /// The execution provider.
    pub execution_provider: ExecutionProvider,
    /// Threads within an operator.
    pub intra_threads: usize,
    /// Threads between operators.
    pub inter_threads: usize,
    /// The hook that comes last.
    pub configure: Option<C>,
    /// Where compiled CoreML models are kept; read by the CoreML provider alone.
    pub coreml_cache_dir: Option<String>,
    /// Read by the CoreML provider alone.
    pub coreml_compute_units: CoreMLComputeUnits,
    /// The GPU to use; read by the WebGPU provider alone.
    pub webgpu_device_id: Option<i32>,
}

impl<C> Default for ModelConfig<C> {
    fn default() -> (r: Self)
        ensures
            r == ModelConfig::<C>::standard(),
    {
        ModelConfig {
            execution_provider: ExecutionProvider::Cpu,
            intra_threads: 4,
            inter_threads: 1,
            configure: None,
            coreml_cache_dir: None,
            coreml_compute_units: CoreMLComputeUnits::CpuAndGpu,
            webgpu_device_id: None,
        }
    }
}

impl<C> ModelConfig<C> {
    /// Four threads within and one between operators, on the CPU.
    pub open spec fn standard() -> ModelConfig<C> {
        ModelConfig {
            execution_provider: ExecutionProvider::Cpu,
            intra_threads: 4,
            inter_threads: 1,
            configure: None,
            coreml_cache_dir: None,
            coreml_compute_units: CoreMLComputeUnits::CpuAndGpu,
            webgpu_device_id: None,
        }
    }

    /// The default options.
    pub fn new() -> (r: Self)
        ensures
            r == ModelConfig::<C>::standard(),
    {
        ModelConfig::default()
    }

    /// With another execution provider.
    pub fn with_execution_provider(self, provider: ExecutionProvider) -> (r: Self)
        ensures
            r == (ModelConfig { execution_provider: provider, ..self }),
    {
        ModelConfig { execution_provider: provider, ..self }
    }

    /// With another number of threads within an operator.
    pub fn with_intra_threads(self, threads: usize) -> (r: Self)
        ensures
            r == (ModelConfig { intra_threads: threads, ..self }),
    {
        ModelConfig { intra_threads: threads, ..self }
    }

    /// With another number of threads between operators.
    pub fn with_inter_threads(self, threads: usize) -> (r: Self)
        ensures
            r == (ModelConfig { inter_threads: threads, ..self }),
    {
        ModelConfig { inter_threads: threads, ..self }
    }

    /// With a hook that comes last.
    pub fn with_custom_configure(self, configure: C) -> (r: Self)
        ensures
            r == (ModelConfig { configure: Some(configure), ..self }),
    {
        ModelConfig { configure: Some(configure), ..self }
    }

    /// With a directory for compiled CoreML models, which saves compiling them
    /// again for each session.
    pub fn with_coreml_cache_dir(self, path: String) -> (r: Self)
        ensures
            r == (ModelConfig { coreml_cache_dir: Some(path), ..self }),
    {
        ModelConfig { coreml_cache_dir: Some(path), ..self }
    }

    /// With other CoreML compute units.
    pub fn with_coreml_compute_units(self, units: CoreMLComputeUnits) -> (r: Self)
        ensures
            r == (ModelConfig { coreml_compute_units: units, ..self }),
    {
        ModelConfig { coreml_compute_units: units, ..self }
    }

    /// With a GPU for the WebGPU provider.
    pub fn with_webgpu_device_id(self, device_id: i32) -> (r: Self)
        ensures
            r == (ModelConfig { webgpu_device_id: Some(device_id), ..self }),
    {
        ModelConfig { webgpu_device_id: Some(device_id), ..self }
    }

    /// What a debug text shows for the hook.
    pub fn configure_label(&self) -> (r: &'static str)
        ensures
            r@ == if self.configure is Some {
                "<fn>"@
            } else {
                "None"@
            },
    {
        match &self.configure {
            Some(_) => "<fn>",
            None => "None",
        }
    }
}

/// A provider with its options.
#[derive(Debug)]
pub enum ProviderOptions {
    Cpu,
    Cuda,
    TensorRT,
    CoreML { compute_units: CoreMLComputeUnits, model_cache_dir: Option<String> },
    DirectML,
    MIGraphX,
    OpenVINO,
    WebGPU { device_id: Option<i32> },
    NNAPI,
}

/// A provider to register. Where it fails, the session is refused if
/// `error_on_failure` says so, and the next provider is tried otherwise.
#[derive(Debug)]
pub struct Registration {
    pub provider: ProviderOptions,
    pub error_on_failure: bool,
}

/// One setting of a session builder.
#[derive(Debug)]
pub enum SessionSetting {
    /// The graph optimization level.
    OptimizationLevel(usize),
    /// Threads within an operator.
    IntraThreads(usize),
    /// Threads between operators.
    InterThreads(usize),
    /// Whether operators run side by side.
    ParallelExecution(bool),
    /// Whether memory is allocated by pattern.
    MemoryPattern(bool),
    /// The providers to register, in order.
    ExecutionProviders { accelerator: Registration, fallback: Registration },
    /// The hook of the options.
    Custom,
}

/// The highest graph optimization level.
pub const OPTIMIZATION_LEVEL: usize = 3;

/// Whether the provider wants operators one after the other and memory without
/// patterns.
pub open spec fn needs_sequential_session(provider: ExecutionProvider) -> bool {
    provider is WebGPU || provider is DirectML
}

impl<C> ModelConfig<C> {
    /// The provider of the options, with those options that it reads.
    pub open spec fn provider_options(&self) -> ProviderOptions {
        match self.execution_provider {
            ExecutionProvider::Cpu => ProviderOptions::Cpu,
            ExecutionProvider::Cuda => ProviderOptions::Cuda,
            ExecutionProvider::TensorRT => ProviderOptions::TensorRT,
            ExecutionProvider::CoreML => ProviderOptions::CoreML {
                compute_units: self.coreml_compute_units,
                model_cache_dir: self.coreml_cache_dir,
            },
            ExecutionProvider::DirectML => ProviderOptions::DirectML,
            ExecutionProvider::MIGraphX => ProviderOptions::MIGraphX,
            ExecutionProvider::OpenVINO => ProviderOptions::OpenVINO,
            ExecutionProvider::WebGPU => ProviderOptions::WebGPU {
                device_id: self.webgpu_device_id,
            },
            ExecutionProvider::NNAPI => ProviderOptions::NNAPI,
        }
    }

    /// The settings that every session has.
    pub open spec fn common_settings(&self) -> Seq<SessionSetting> {
        seq![
            SessionSetting::OptimizationLevel(OPTIMIZATION_LEVEL),
            SessionSetting::IntraThreads(self.intra_threads),
            SessionSetting::InterThreads(self.inter_threads),
        ]
    }

    /// The settings of a provider that needs a sequential session.
    pub open spec fn sequential_settings(&self) -> Seq<SessionSetting> {
        if needs_sequential_session(self.execution_provider) {
            seq![SessionSetting::ParallelExecution(false), SessionSetting::MemoryPattern(false)]
        } else {
            Seq::empty()
        }
    }

    /// The registration of an accelerator, with the CPU behind it.
    pub open spec fn provider_settings(&self) -> Seq<SessionSetting> {
        if self.execution_provider is Cpu {
            Seq::empty()
        } else {
            seq![
                SessionSetting::ExecutionProviders {
                    accelerator: Registration {
                        provider: self.provider_options(),
                        error_on_failure: false,
                    },
                    fallback: Registration {
                        provider: ProviderOptions::Cpu,
                        error_on_failure: true,
                    },
                },
            ]
        }
    }

    /// The hook, where there is one.
    pub open spec fn custom_settings(&self) -> Seq<SessionSetting> {
        if self.configure is Some {
            seq![SessionSetting::Custom]
        } else {
            Seq::empty()
        }
    }

    /// The settings that a session builder is put through, in order.
    pub open spec fn plan(&self) -> Seq<SessionSetting> {
        self.common_settings() + self.sequential_settings() + self.provider_settings()
            + self.custom_settings()
    }

    /// The provider of the options, with those options that it reads.
    fn options_of_provider(&self) -> (r: ProviderOptions)
        ensures
            r == self.provider_options(),
    {
        match self.execution_provider {
            ExecutionProvider::Cpu => ProviderOptions::Cpu,
            ExecutionProvider::Cuda => ProviderOptions::Cuda,
            ExecutionProvider::TensorRT => ProviderOptions::TensorRT,
            ExecutionProvider::CoreML => {
                let model_cache_dir = match &self.coreml_cache_dir {
                    None => None,
                    Some(dir) => Some(dir.clone()),
                };
                ProviderOptions::CoreML {
                    compute_units: self.coreml_compute_units,
                    model_cache_dir,
                }
            },
            ExecutionProvider::DirectML => ProviderOptions::DirectML,
            ExecutionProvider::MIGraphX => ProviderOptions::MIGraphX,
            ExecutionProvider::OpenVINO => ProviderOptions::OpenVINO,
            ExecutionProvider::WebGPU => ProviderOptions::WebGPU {
                device_id: self.webgpu_device_id,
            },
            ExecutionProvider::NNAPI => ProviderOptions::NNAPI,
        }
    }

    /// The settings that a session builder is put through, in order.
    pub fn session_plan(&self) -> (r: Vec<SessionSetting>)
        ensures
            r@ == self.plan(),
    {
        let mut plan: Vec<SessionSetting> = Vec::new();
        plan.push(SessionSetting::OptimizationLevel(OPTIMIZATION_LEVEL));
        plan.push(SessionSetting::IntraThreads(self.intra_threads));
        plan.push(SessionSetting::InterThreads(self.inter_threads));
        assert(plan@ =~= self.common_settings());
        let sequential = match self.execution_provider {
            ExecutionProvider::WebGPU => true,
            ExecutionProvider::DirectML => true,
            _ => false,
        };
        if sequential {
            plan.push(SessionSetting::ParallelExecution(false));
            plan.push(SessionSetting::MemoryPattern(false));
        }
        assert(plan@ =~= self.common_settings() + self.sequential_settings());
        match self.execution_provider {
            ExecutionProvider::Cpu => {},
            _ => {
                plan.push(
                    SessionSetting::ExecutionProviders {
                        accelerator: Registration {
                            provider: self.options_of_provider(),
                            error_on_failure: false,
                        },
                        fallback: Registration {
                            provider: ProviderOptions::Cpu,
                            error_on_failure: true,
                        },
                    },
                );
            },
        }
        assert(plan@ =~= self.common_settings() + self.sequential_settings()
            + self.provider_settings());
        match &self.configure {
            None => {},
            Some(_) => {
                plan.push(SessionSetting::Custom);
            },
        }
        assert(plan@ =~= self.plan());
        plan
    }

    /// Every accelerator falls back to the CPU: where one is registered, its
    /// failure is let pass, and the CPU comes behind it and must not fail. The
    /// CPU alone is not registered at all.
    pub proof fn law_accelerators_fall_back_to_the_cpu(&self)
        ensures
            forall|i: int|
                0 <= i < self.plan().len() ==> (#[trigger] self.plan()[i] matches
                    SessionSetting::ExecutionProviders { accelerator, fallback } ==> {
                    &&& accelerator.provider == self.provider_options()
                    &&& !(accelerator.provider is Cpu)
                    &&& !accelerator.error_on_failure
                    &&& fallback.provider is Cpu
                    &&& fallback.error_on_failure
                }),
            (exists|i: int|
                0 <= i < self.plan().len() && #[trigger] self.plan()[i] is ExecutionProviders)
                <==> !(self.execution_provider is Cpu),
    {
        let n = self.common_settings().len() + self.sequential_settings().len();
        if !(self.execution_provider is Cpu) {
            assert(self.plan()[n as int] == self.provider_settings()[0]);
        }
    }

    /// The hook comes last, so that it can overrule every other setting.
    pub proof fn law_custom_settings_come_last(&self)
        ensures
            self.plan().last() is Custom <==> self.configure is Some,
            forall|i: int|
                0 <= i < self.plan().len() - 1 ==> !(#[trigger] self.plan()[i] is Custom),
    {
        if self.configure is Some {
            assert(self.plan().last() == self.custom_settings()[0]);
        }
    }

    /// The accelerator that is registered is the one asked for, kind by kind, and a
    /// plan registers accelerators once at most.
    pub proof fn law_the_provider_asked_for_is_registered(&self, i: int)
        requires
            0 <= i < self.plan().len(),
            self.plan()[i] is ExecutionProviders,
        ensures
            self.plan()[i]->accelerator.provider is Cuda <==> self.execution_provider is Cuda,
            self.plan()[i]->accelerator.provider is TensorRT
                <==> self.execution_provider is TensorRT,
            self.plan()[i]->accelerator.provider is CoreML <==> self.execution_provider is CoreML,
            self.plan()[i]->accelerator.provider is DirectML
                <==> self.execution_provider is DirectML,
            self.plan()[i]->accelerator.provider is MIGraphX
                <==> self.execution_provider is MIGraphX,
            self.plan()[i]->accelerator.provider is OpenVINO
                <==> self.execution_provider is OpenVINO,
            self.plan()[i]->accelerator.provider is WebGPU <==> self.execution_provider is WebGPU,
            self.plan()[i]->accelerator.provider is NNAPI <==> self.execution_provider is NNAPI,
            !(self.plan()[i]->accelerator.provider is Cpu),
            !(self.execution_provider is Cpu),
            forall|j: int|
                0 <= j < self.plan().len() && #[trigger] self.plan()[j] is ExecutionProviders
                    ==> j == i,
    {
    }

    /// The CoreML provider is handed the compute units and the cache directory of
    /// the options, the WebGPU provider their device; each as it is, also where the
    /// options name none.
    pub proof fn law_providers_are_handed_their_options(&self, i: int)
        requires
            0 <= i < self.plan().len(),
        ensures
            self.plan()[i] matches SessionSetting::ExecutionProviders { accelerator, fallback } ==> {
                &&& accelerator.provider matches ProviderOptions::CoreML {
                    compute_units,
                    model_cache_dir,
                } ==> compute_units == self.coreml_compute_units && model_cache_dir
                    == self.coreml_cache_dir
                &&& accelerator.provider matches ProviderOptions::WebGPU { device_id }
                    ==> device_id == self.webgpu_device_id
            },
    {
    }

    /// The settings that every plan holds, each once: the third optimization level
    /// and the two thread counts of the options. Operators run side by side and
    /// memory is allocated by pattern unless the provider is DirectML or WebGPU, for
    /// which both are switched off before the provider is registered.
    pub proof fn law_settings_of_every_plan(&self)
        ensures
            self.plan().filter(|s: SessionSetting| s is OptimizationLevel) == seq![
                SessionSetting::OptimizationLevel(3),
            ],
            self.plan().filter(|s: SessionSetting| s is IntraThreads) == seq![
                SessionSetting::IntraThreads(self.intra_threads),
            ],
            self.plan().filter(|s: SessionSetting| s is InterThreads) == seq![
                SessionSetting::InterThreads(self.inter_threads),
            ],
            self.execution_provider is DirectML || self.execution_provider is WebGPU ==> {
                &&& self.plan().filter(|s: SessionSetting| s is ParallelExecution) == seq![
                    SessionSetting::ParallelExecution(false),
                ]
                &&& self.plan().filter(|s: SessionSetting| s is MemoryPattern) == seq![
                    SessionSetting::MemoryPattern(false),
                ]
            },
            !(self.execution_provider is DirectML) && !(self.execution_provider is WebGPU) ==> {
                &&& self.plan().filter(|s: SessionSetting| s is ParallelExecution).len() == 0
                &&& self.plan().filter(|s: SessionSetting| s is MemoryPattern).len() == 0
            },
            forall|i: int, j: int|
                0 <= i < self.plan().len() && 0 <= j < self.plan().len() && (
                #[trigger] self.plan()[i] is ParallelExecution || self.plan()[i] is MemoryPattern)
                    && #[trigger] self.plan()[j] is ExecutionProviders ==> i < j,
    {
        reveal_with_fuel(Seq::filter, 8);
        let plan = self.plan();
        let level = |s: SessionSetting| s is OptimizationLevel;
        let intra = |s: SessionSetting| s is IntraThreads;
        let inter = |s: SessionSetting| s is InterThreads;
        let parallel = |s: SessionSetting| s is ParallelExecution;
        let pattern = |s: SessionSetting| s is MemoryPattern;
        let a = plan.drop_last();
        let b = a.drop_last();
        let c = b.drop_last();
        let d = c.drop_last();
        let e = d.drop_last();
        let f = e.drop_last();
        let g = f.drop_last();
        assert(plan.filter(level) =~= seq![SessionSetting::OptimizationLevel(3)]);
        assert(plan.filter(intra) =~= seq![SessionSetting::IntraThreads(self.intra_threads)]);
        assert(plan.filter(inter) =~= seq![SessionSetting::InterThreads(self.inter_threads)]);
        if self.execution_provider is DirectML || self.execution_provider is WebGPU {
            assert(plan.filter(parallel) =~= seq![SessionSetting::ParallelExecution(false)]);
            assert(plan.filter(pattern) =~= seq![SessionSetting::MemoryPattern(false)]);
        }
    }

    /// Fresh options ask for the CPU, with four threads within operators and one between
    /// them, and for no hook; their label tells whether there is one.
    pub proof fn law_fresh_options_ask_for_the_cpu(&self, r: ModelConfig<C>, label: &str)
        ensures
            call_ensures(ModelConfig::<C>::new, (), r) || call_ensures(
                ModelConfig::<C>::default,
                (),
                r,
            ) ==> {
                &&& r.execution_provider is Cpu
                &&& r.intra_threads == 4
                &&& r.inter_threads == 1
                &&& r.configure is None
                &&& r.coreml_cache_dir is None
                &&& r.coreml_compute_units is CpuAndGpu
                &&& r.webgpu_device_id is None
            },
            call_ensures(ModelConfig::<C>::configure_label, (self,), label) ==> {
                &&& self.configure is Some ==> label@ == "<fn>"@
                &&& self.configure is None ==> label@ == "None"@
            },
    {
    }

    /// Every setter sets its own option and leaves the others as they are.
    pub proof fn law_setters_set_their_own_option(
        self,
        provider: ExecutionProvider,
        threads: usize,
        hook: C,
        path: String,
        units: CoreMLComputeUnits,
        device_id: i32,
        r: ModelConfig<C>,
    )
        ensures
            call_ensures(ModelConfig::<C>::with_execution_provider, (self, provider), r) ==> {
                &&& r.execution_provider == provider
                &&& r.intra_threads == self.intra_threads
                &&& r.inter_threads == self.inter_threads
                &&& r.configure == self.configure
                &&& r.coreml_cache_dir == self.coreml_cache_dir
                &&& r.coreml_compute_units == self.coreml_compute_units
                &&& r.webgpu_device_id == self.webgpu_device_id
            },
            call_ensures(ModelConfig::<C>::with_intra_threads, (self, threads), r) ==> {
                &&& r.execution_provider == self.execution_provider
                &&& r.intra_threads == threads
                &&& r.inter_threads == self.inter_threads
                &&& r.configure == self.configure
                &&& r.coreml_cache_dir == self.coreml_cache_dir
                &&& r.coreml_compute_units == self.coreml_compute_units
                &&& r.webgpu_device_id == self.webgpu_device_id
            },
            call_ensures(ModelConfig::<C>::with_inter_threads, (self, threads), r) ==> {
                &&& r.execution_provider == self.execution_provider
                &&& r.intra_threads == self.intra_threads
                &&& r.inter_threads == threads
                &&& r.configure == self.configure
                &&& r.coreml_cache_dir == self.coreml_cache_dir
                &&& r.coreml_compute_units == self.coreml_compute_units
                &&& r.webgpu_device_id == self.webgpu_device_id
            },
            call_ensures(ModelConfig::<C>::with_custom_configure, (self, hook), r) ==> {
                &&& r.execution_provider == self.execution_provider
                &&& r.intra_threads == self.intra_threads
                &&& r.inter_threads == self.inter_threads
                &&& r.configure == Some(hook)
                &&& r.coreml_cache_dir == self.coreml_cache_dir
                &&& r.coreml_compute_units == self.coreml_compute_units
                &&& r.webgpu_device_id == self.webgpu_device_id
            },
            call_ensures(ModelConfig::<C>::with_coreml_cache_dir, (self, path), r) ==> {
                &&& r.execution_provider == self.execution_provider
                &&& r.intra_threads == self.intra_threads
                &&& r.inter_threads == self.inter_threads
                &&& r.configure == self.configure
                &&& r.coreml_cache_dir == Some(path)
                &&& r.coreml_compute_units == self.coreml_compute_units
                &&& r.webgpu_device_id == self.webgpu_device_id
            },
            call_ensures(ModelConfig::<C>::with_coreml_compute_units, (self, units), r) ==> {
                &&& r.execution_provider == self.execution_provider
                &&& r.intra_threads == self.intra_threads
                &&& r.inter_threads == self.inter_threads
                &&& r.configure == self.configure
                &&& r.coreml_cache_dir == self.coreml_cache_dir
                &&& r.coreml_compute_units == units
                &&& r.webgpu_device_id == self.webgpu_device_id
            },
            call_ensures(ModelConfig::<C>::with_webgpu_device_id, (self, device_id), r) ==> {
                &&& r.execution_provider == self.execution_provider
                &&& r.intra_threads == self.intra_threads
                &&& r.inter_threads == self.inter_threads
                &&& r.configure == self.configure
                &&& r.coreml_cache_dir == self.coreml_cache_dir
                &&& r.coreml_compute_units == self.coreml_compute_units
                &&& r.webgpu_device_id == Some(device_id)
            },
    {
    }

    /// What a session is set up with: the plan of the options, and no other.
    pub proof fn law_sessions_follow_the_plan(&self, r: Vec<SessionSetting>, i: int)
        requires
            call_ensures(ModelConfig::<C>::session_plan, (self,), r),
            0 <= i < r@.len(),
            r@[i] is ExecutionProviders,
        ensures
            r@[i]->accelerator.provider is Cuda <==> self.execution_provider is Cuda,
            r@[i]->accelerator.provider is TensorRT <==> self.execution_provider is TensorRT,
            r@[i]->accelerator.provider is CoreML <==> self.execution_provider is CoreML,
            r@[i]->accelerator.provider is DirectML <==> self.execution_provider is DirectML,
            r@[i]->accelerator.provider is MIGraphX <==> self.execution_provider is MIGraphX,
            r@[i]->accelerator.provider is OpenVINO <==> self.execution_provider is OpenVINO,
            r@[i]->accelerator.provider is WebGPU <==> self.execution_provider is WebGPU,
            r@[i]->accelerator.provider is NNAPI <==> self.execution_provider is NNAPI,
            r@[i]->fallback.provider is Cpu,
    {
        self.law_the_provider_asked_for_is_registered(i);
        self.law_accelerators_fall_back_to_the_cpu();
    }
}

} // verus!
