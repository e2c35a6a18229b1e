//! The runner: wiring a configured pipeline to a fresh host and driving
//! it to completion.
//!
//! The runner builds a fresh allocator and module registry, copies the
//! caller's input into the arena as the single starting payload, drives
//! the graph, and returns the first output buffer together with the
//! allocator that owns it, so the bytes stay valid for as long as the
//! output is held.

use vstd::prelude::*;
use vstd::string::StringSliceAdditionalSpecFns;

use crate::allocator::{AllocationType, ModuleAllocator};
use crate::engine::{
    spec_alloc_serial, spec_error_view, spec_payload_valid, spec_run_serial,
    lemma_alloc_serial_nonneg, lemma_run_serial_nonempty, spec_counters_bounded, PipelineError,
    PipelineErrorView,
};
use crate::module::{spec_module_view, Module};
use crate::pipeline::{spec_serial_valid, spec_serial_view, Pipeline, PipelineData};
use crate::registry::{ModuleRegistry, RegistryView};
use crate::resources::ResourceRegistry;

verus! {

broadcast use crate::bytes::lemma_bytes_deep_view;

/// Everything one run needs: the graph, the resources, the modules that
/// can be loaded, the input bytes, and how the arena is backed.
pub struct PipelineRunConfiguration {
    pub module_search_path: Vec<u8>,
    pub pipeline: Pipeline,
    pub resources: ResourceRegistry,
    pub modules: Vec<Module>,
    pub input: Vec<u8>,
    pub allocation_type: AllocationType,
}

/// A finished run: the first output buffer, and the allocator that owns
/// every buffer of the run, kept alive alongside it.
pub struct PipelineRunOutput {
    allocator: ModuleAllocator,
    pub output: PipelineData,
}

impl PipelineRunOutput {
    pub closed spec fn spec_allocator(self) -> ModuleAllocator {
        self.allocator
    }

    pub closed spec fn wf(self) -> bool {
        spec_payload_valid(self.spec_allocator().buffers(), self.output)
    }

    /// The bytes of the output buffer.
    pub closed spec fn spec_output_bytes(self) -> Seq<u8> {
        self.spec_allocator().buffers()[self.output.data as int]
    }

    /// Read the output.
    pub fn output_bytes(&self) -> (r: &Vec<u8>)
        requires
            self.wf(),
        ensures
            r@ == self.spec_output_bytes(),
    {
        self.allocator.buffer(self.output.data)
    }
}

/// The registry a run starts with: the default search path, the
/// configured one, the configured modules, and an empty cache.
pub open spec fn spec_initial_registry(
    module_search_path: Seq<u8>,
    modules: Seq<Module>,
) -> RegistryView {
    RegistryView {
        search_paths: seq!["modules".spec_bytes(), module_search_path],
        available: Seq::new(modules.len(), |i: int| spec_module_view(modules[i])),
        cache: Seq::empty(),
    }
}

/// What a configured run yields: the run semantics applied to the graph,
/// a single input payload, the initial registry, and the resources.
pub open spec fn spec_configured_outcome(c: PipelineRunConfiguration) -> Result<
    Seq<Seq<u8>>,
    PipelineErrorView,
> {
    spec_run_serial(
        spec_serial_view(c.pipeline.root),
        seq![c.input@],
        spec_initial_registry(c.module_search_path@, c.modules@),
        c.resources.spec_states(),
    )
}

impl PipelineRunConfiguration {
    /// Build the host, wrap the input, drive the graph, and return the
    /// first output buffer backed by the allocator that owns it.
    pub fn run(self) -> (r: Result<PipelineRunOutput, PipelineError>)
        requires
            self.resources.wf(),
            spec_counters_bounded(self.resources.spec_states()),
            spec_serial_valid(spec_serial_view(self.pipeline.root)),
            self.input@.len() + spec_alloc_serial(
                spec_serial_view(self.pipeline.root),
                seq![self.input@],
                spec_initial_registry(self.module_search_path@, self.modules@),
                self.resources.spec_states(),
            ) <= usize::MAX,
        ensures
            match r {
                Result::Ok(out) => {
                    &&& spec_configured_outcome(self) is Ok
                    &&& out.wf()
                    &&& out.spec_output_bytes() == spec_configured_outcome(self)->Ok_0[0]
                },
                Result::Err(e) => spec_configured_outcome(self) == Result::<
                    Seq<Seq<u8>>,
                    PipelineErrorView,
                >::Err(spec_error_view(e)),
            },
    {
        let ghost rv_init = spec_initial_registry(self.module_search_path@, self.modules@);
        let ghost outcome = spec_configured_outcome(self);
        let PipelineRunConfiguration {
            module_search_path,
            pipeline,
            resources,
            mut modules,
            input,
            allocation_type,
        } = self;
        let ghost all_modules = modules@;
        let mut resources = resources;
        let mut allocator = ModuleAllocator::new(allocation_type);
        let mut registry = ModuleRegistry::new();
        registry.add_search_path(module_search_path);
        proof {
            assert(registry.view_of().search_paths =~= rv_init.search_paths);
        }
        let module_count = modules.len();
        proof {
            assert(all_modules.len() == module_count);
        }
        let mut consumed: usize = 0;
        while modules.len() > 0
            invariant
                all_modules.len() <= usize::MAX,
                consumed + modules@.len() == all_modules.len(),
                modules@ =~= all_modules.skip(consumed as int),
                registry.view_of().search_paths == rv_init.search_paths,
                registry.view_of().cache =~= Seq::<crate::module::ModuleView>::empty(),
                registry.view_of().available =~= Seq::new(
                    consumed as nat,
                    |i: int| spec_module_view(all_modules[i]),
                ),
                rv_init.search_paths == registry.view_of().search_paths,
                rv_init.available == Seq::new(
                    all_modules.len(),
                    |i: int| spec_module_view(all_modules[i]),
                ),
                rv_init.cache == Seq::<crate::module::ModuleView>::empty(),
            decreases modules@.len(),
        {
            let m = modules.remove(0);
            proof {
                assert(m == all_modules[consumed as int]);
            }
            registry.install_module(m);
            consumed = consumed + 1;
            proof {
                assert(modules@ =~= all_modules.skip(consumed as int));
                assert(registry.view_of().available =~= Seq::new(
                    consumed as nat,
                    |i: int| spec_module_view(all_modules[i]),
                ));
            }
        }
        proof {
            assert(registry.view_of().available =~= rv_init.available);
            assert(registry.view_of() == rv_init);
            lemma_alloc_serial_nonneg(
                spec_serial_view(pipeline.root),
                seq![input@],
                rv_init,
                resources.spec_states(),
            );
        }
        let ghost res0 = resources.spec_states();
        let size = input.len();
        let id = allocator.allocate(size);
        allocator.fill(id, &input);
        let mut inputs: Vec<PipelineData> = Vec::new();
        inputs.push(PipelineData { data: id, size });
        proof {
            assert(crate::engine::spec_payload_bytes(allocator.buffers(), inputs@)
                =~= seq![input@]);
        }
        let result = pipeline.run(&mut registry, &mut resources, &mut allocator, inputs);
        match result {
            Result::Ok(outs) => {
                proof {
                    lemma_run_serial_nonempty(
                        spec_serial_view(pipeline.root),
                        seq![input@],
                        rv_init,
                        res0,
                    );
                }
                let output = outs[0];
                Ok(PipelineRunOutput { allocator, output })
            },
            Result::Err(e) => Err(e),
        }
    }
}

/// Run a pipeline with the default search path and memory-backed arena.
pub fn run(
    pipeline: Pipeline,
    resources: ResourceRegistry,
    modules: Vec<Module>,
    input: Vec<u8>,
) -> (r: Result<PipelineRunOutput, PipelineError>)
    requires
        resources.wf(),
        spec_counters_bounded(resources.spec_states()),
        spec_serial_valid(spec_serial_view(pipeline.root)),
        input@.len() + spec_alloc_serial(
            spec_serial_view(pipeline.root),
            seq![input@],
            spec_initial_registry("modules".spec_bytes(), modules@),
            resources.spec_states(),
        ) <= usize::MAX,
    ensures
        ({
            let outcome = spec_run_serial(
                spec_serial_view(pipeline.root),
                seq![input@],
                spec_initial_registry("modules".spec_bytes(), modules@),
                resources.spec_states(),
            );
            match r {
                Result::Ok(out) => {
                    &&& outcome is Ok
                    &&& out.wf()
                    &&& out.spec_output_bytes() == outcome->Ok_0[0]
                },
                Result::Err(e) => outcome == Result::<Seq<Seq<u8>>, PipelineErrorView>::Err(
                    spec_error_view(e),
                ),
            }
        }),
{
    let configuration = PipelineRunConfiguration {
        module_search_path: vstd::slice::slice_to_vec("modules".as_bytes()),
        pipeline,
        resources,
        modules,
        input,
        allocation_type: AllocationType::Memory,
    };
    configuration.run()
}

} // verus!
