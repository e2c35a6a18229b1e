//! The execution engine: walking the graph over the host state.
//!
//! The semantics of a run is a function of the graph, the input payload
//! bytes, how the registry resolves module names, and the resource table:
//! a serial node threads each stage's output into the next stage's input,
//! and a parallel node runs every child on the same input and concatenates
//! their outputs in declaration order, failing as a whole if any child
//! failed. The executable engine is proved to return exactly that
//! function's value, to keep every existing arena buffer intact, and to
//! leave the resource table as it found it.

use vstd::prelude::*;

use crate::allocator::ModuleAllocator;
use crate::bytes::clone_bytes;
use crate::module::{
    spec_call_module, spec_error_record, ModuleRunError, spec_module_view,
};
use crate::pipeline::{
    spec_command_view, spec_parallel_view, spec_parallel_views, spec_serial_view,
    spec_serial_views, spec_parallel_height, spec_serial_height, lemma_parallel_height_index,
    lemma_serial_height_index, lemma_parallel_views_index, lemma_parallel_views_len,
    lemma_serial_views_index, lemma_serial_views_len, CommandView, ParallelView, Pipeline,
    PipelineCommand, PipelineData, PipelineNodeParallel, PipelineNodeSerial, SerialView,
};
use crate::registry::{
    spec_attempted_paths, spec_resolve, spec_step_get, lemma_step_get_resolution,
    ModuleLoadError, ModuleRegistry, RegistryView,
};
use crate::resources::{EntryState, ResourceRegistry};

verus! {

broadcast use crate::bytes::lemma_bytes_deep_view;

/// Why a run failed.
#[derive(Debug)]
pub enum PipelineError {
    /// A parallel node had a failing child.
    NodeFailed,
    /// A stage's module could not be loaded.
    ModuleLoad(ModuleLoadError),
    /// A stage's module ran and reported an error record.
    ModuleRun(ModuleRunError),
}

/// The mathematical shape of a run failure.
pub ghost enum PipelineErrorView {
    NodeFailed,
    ModuleLoad(Seq<Seq<u8>>),
    ModuleRun(Seq<u8>),
}

pub open spec fn spec_error_view(e: PipelineError) -> PipelineErrorView {
    match e {
        PipelineError::NodeFailed => PipelineErrorView::NodeFailed,
        PipelineError::ModuleLoad(ModuleLoadError::LoadFailed(es)) => PipelineErrorView::ModuleLoad(
            es.deep_view(),
        ),
        PipelineError::ModuleRun(m) => PipelineErrorView::ModuleRun(spec_error_record(m)),
    }
}

// ------------------------------------------------------------------
// Payloads as indices into the arena.
// ------------------------------------------------------------------

/// `p` denotes an arena buffer and carries its correct size.
pub open spec fn spec_payload_valid(buffers: Seq<Seq<u8>>, p: PipelineData) -> bool {
    &&& p.data < buffers.len()
    &&& p.size == buffers[p.data as int].len()
}

pub open spec fn spec_payloads_valid(buffers: Seq<Seq<u8>>, ps: Seq<PipelineData>) -> bool {
    forall|i: int| 0 <= i < ps.len() ==> spec_payload_valid(buffers, #[trigger] ps[i])
}

/// The byte strings a payload list denotes.
pub open spec fn spec_payload_bytes(buffers: Seq<Seq<u8>>, ps: Seq<PipelineData>) -> Seq<
    Seq<u8>,
> {
    Seq::new(ps.len(), |i: int| buffers[ps[i].data as int])
}

/// Growing the arena changes no existing payload's meaning.
pub proof fn lemma_payloads_stable(a: ModuleAllocator, b: ModuleAllocator, ps: Seq<PipelineData>)
    requires
        a.extends(b),
        spec_payloads_valid(a.buffers(), ps),
    ensures
        spec_payloads_valid(b.buffers(), ps),
        spec_payload_bytes(b.buffers(), ps) =~= spec_payload_bytes(a.buffers(), ps),
{
}

// ------------------------------------------------------------------
// The semantics of a run.
// ------------------------------------------------------------------

pub open spec fn spec_cmd_params(c: CommandView) -> Seq<Seq<u8>> {
    match c.parameters {
        Option::Some(ps) => ps,
        Option::None => Seq::empty(),
    }
}

/// One command stage: resolve the module, call the command, and wrap the
/// output as a one-element payload list.
pub open spec fn spec_process_single(
    c: CommandView,
    inputs: Seq<Seq<u8>>,
    rv: RegistryView,
    res: Seq<EntryState>,
) -> Result<Seq<Seq<u8>>, PipelineErrorView> {
    match spec_resolve(rv, c.module) {
        Option::None => Result::Err(
            PipelineErrorView::ModuleLoad(spec_attempted_paths(rv.search_paths, c.module)),
        ),
        Option::Some(mv) => match spec_call_module(
            mv,
            c.command,
            spec_cmd_params(c),
            inputs,
            res,
        ) {
            Result::Ok(out) => Result::Ok(seq![out]),
            Result::Err(m) => Result::Err(PipelineErrorView::ModuleRun(m)),
        },
    }
}

pub open spec fn spec_run_serial(
    v: SerialView,
    inputs: Seq<Seq<u8>>,
    rv: RegistryView,
    res: Seq<EntryState>,
) -> Result<Seq<Seq<u8>>, PipelineErrorView>
    decreases v,
{
    match v {
        SerialView::Single(c) => spec_process_single(c, inputs, rv, res),
        SerialView::Multiple(children) => spec_run_stages(children, inputs, rv, res),
    }
}

/// The serial chain: stage `k + 1` observes exactly stage `k`'s output.
pub open spec fn spec_run_stages(
    children: Seq<ParallelView>,
    inputs: Seq<Seq<u8>>,
    rv: RegistryView,
    res: Seq<EntryState>,
) -> Result<Seq<Seq<u8>>, PipelineErrorView>
    decreases children,
{
    if children.len() == 0 {
        Result::Ok(inputs)
    } else {
        match spec_run_parallel(children[0], inputs, rv, res) {
            Result::Err(e) => Result::Err(e),
            Result::Ok(next) => spec_run_stages(children.drop_first(), next, rv, res),
        }
    }
}

pub open spec fn spec_run_parallel(
    v: ParallelView,
    inputs: Seq<Seq<u8>>,
    rv: RegistryView,
    res: Seq<EntryState>,
) -> Result<Seq<Seq<u8>>, PipelineErrorView>
    decreases v,
{
    match v {
        ParallelView::Single(c) => spec_process_single(c, inputs, rv, res),
        ParallelView::Multiple(children) => {
            let results = spec_run_children(children, inputs, rv, res);
            if exists|i: int| 0 <= i < results.len() && results[i] is Err {
                Result::Err(PipelineErrorView::NodeFailed)
            } else {
                Result::Ok(spec_flatten_outputs(results))
            }
        },
    }
}

/// Every child's own outcome, on the same input, in declaration order.
pub open spec fn spec_run_children(
    children: Seq<SerialView>,
    inputs: Seq<Seq<u8>>,
    rv: RegistryView,
    res: Seq<EntryState>,
) -> Seq<Result<Seq<Seq<u8>>, PipelineErrorView>>
    decreases children,
{
    if children.len() == 0 {
        Seq::empty()
    } else {
        seq![spec_run_serial(children[0], inputs, rv, res)] + spec_run_children(
            children.drop_first(),
            inputs,
            rv,
            res,
        )
    }
}

/// The concatenation, in declaration order, of the successful outputs.
pub open spec fn spec_flatten_outputs(
    results: Seq<Result<Seq<Seq<u8>>, PipelineErrorView>>,
) -> Seq<Seq<u8>>
    decreases results.len(),
{
    if results.len() == 0 {
        Seq::empty()
    } else {
        (match results[0] {
            Result::Ok(o) => o,
            Result::Err(_) => Seq::empty(),
        }) + spec_flatten_outputs(results.drop_first())
    }
}

// ------------------------------------------------------------------
// How many bytes a run allocates.
// ------------------------------------------------------------------

pub open spec fn spec_alloc_single(
    c: CommandView,
    inputs: Seq<Seq<u8>>,
    rv: RegistryView,
    res: Seq<EntryState>,
) -> int {
    match spec_process_single(c, inputs, rv, res) {
        Result::Ok(outs) => outs[0].len() as int,
        Result::Err(_) => 0,
    }
}

pub open spec fn spec_alloc_serial(
    v: SerialView,
    inputs: Seq<Seq<u8>>,
    rv: RegistryView,
    res: Seq<EntryState>,
) -> int
    decreases v,
{
    match v {
        SerialView::Single(c) => spec_alloc_single(c, inputs, rv, res),
        SerialView::Multiple(children) => spec_alloc_stages(children, inputs, rv, res),
    }
}

pub open spec fn spec_alloc_stages(
    children: Seq<ParallelView>,
    inputs: Seq<Seq<u8>>,
    rv: RegistryView,
    res: Seq<EntryState>,
) -> int
    decreases children,
{
    if children.len() == 0 {
        0
    } else {
        spec_alloc_parallel(children[0], inputs, rv, res) + (match spec_run_parallel(
            children[0],
            inputs,
            rv,
            res,
        ) {
            Result::Ok(next) => spec_alloc_stages(children.drop_first(), next, rv, res),
            Result::Err(_) => 0,
        })
    }
}

pub open spec fn spec_alloc_parallel(
    v: ParallelView,
    inputs: Seq<Seq<u8>>,
    rv: RegistryView,
    res: Seq<EntryState>,
) -> int
    decreases v,
{
    match v {
        ParallelView::Single(c) => spec_alloc_single(c, inputs, rv, res),
        ParallelView::Multiple(children) => spec_alloc_children(children, inputs, rv, res),
    }
}

pub open spec fn spec_alloc_children(
    children: Seq<SerialView>,
    inputs: Seq<Seq<u8>>,
    rv: RegistryView,
    res: Seq<EntryState>,
) -> int
    decreases children,
{
    if children.len() == 0 {
        0
    } else {
        spec_alloc_serial(children[0], inputs, rv, res) + spec_alloc_children(
            children.drop_first(),
            inputs,
            rv,
            res,
        )
    }
}

pub proof fn lemma_alloc_serial_nonneg(
    v: SerialView,
    inputs: Seq<Seq<u8>>,
    rv: RegistryView,
    res: Seq<EntryState>,
)
    ensures
        spec_alloc_serial(v, inputs, rv, res) >= 0,
    decreases v,
{
    match v {
        SerialView::Single(_) => {},
        SerialView::Multiple(children) => {
            lemma_alloc_stages_nonneg(children, inputs, rv, res);
        },
    }
}

pub proof fn lemma_alloc_stages_nonneg(
    children: Seq<ParallelView>,
    inputs: Seq<Seq<u8>>,
    rv: RegistryView,
    res: Seq<EntryState>,
)
    ensures
        spec_alloc_stages(children, inputs, rv, res) >= 0,
    decreases children,
{
    if children.len() > 0 {
        lemma_alloc_parallel_nonneg(children[0], inputs, rv, res);
        match spec_run_parallel(children[0], inputs, rv, res) {
            Result::Ok(next) => {
                lemma_alloc_stages_nonneg(children.drop_first(), next, rv, res);
            },
            Result::Err(_) => {},
        }
    }
}

pub proof fn lemma_alloc_parallel_nonneg(
    v: ParallelView,
    inputs: Seq<Seq<u8>>,
    rv: RegistryView,
    res: Seq<EntryState>,
)
    ensures
        spec_alloc_parallel(v, inputs, rv, res) >= 0,
    decreases v,
{
    match v {
        ParallelView::Single(_) => {},
        ParallelView::Multiple(children) => {
            lemma_alloc_children_nonneg(children, inputs, rv, res);
        },
    }
}

pub proof fn lemma_alloc_children_nonneg(
    children: Seq<SerialView>,
    inputs: Seq<Seq<u8>>,
    rv: RegistryView,
    res: Seq<EntryState>,
)
    ensures
        spec_alloc_children(children, inputs, rv, res) >= 0,
    decreases children,
{
    if children.len() > 0 {
        lemma_alloc_serial_nonneg(children[0], inputs, rv, res);
        lemma_alloc_children_nonneg(children.drop_first(), inputs, rv, res);
    }
}

// ------------------------------------------------------------------
// The run's outcome depends on the registry only through how names
// resolve and what the search paths are.
// ------------------------------------------------------------------

pub open spec fn spec_same_resolution(rv1: RegistryView, rv2: RegistryView) -> bool {
    &&& rv1.search_paths == rv2.search_paths
    &&& forall|n: Seq<u8>| #[trigger] spec_resolve(rv1, n) == spec_resolve(rv2, n)
}

pub proof fn lemma_run_serial_congruence(
    v: SerialView,
    inputs: Seq<Seq<u8>>,
    rv1: RegistryView,
    rv2: RegistryView,
    res: Seq<EntryState>,
)
    requires
        spec_same_resolution(rv1, rv2),
    ensures
        spec_run_serial(v, inputs, rv1, res) == spec_run_serial(v, inputs, rv2, res),
        spec_alloc_serial(v, inputs, rv1, res) == spec_alloc_serial(v, inputs, rv2, res),
    decreases v,
{
    match v {
        SerialView::Single(c) => {
            assert(spec_resolve(rv1, c.module) == spec_resolve(rv2, c.module));
        },
        SerialView::Multiple(children) => {
            lemma_run_stages_congruence(children, inputs, rv1, rv2, res);
        },
    }
}

pub proof fn lemma_run_stages_congruence(
    children: Seq<ParallelView>,
    inputs: Seq<Seq<u8>>,
    rv1: RegistryView,
    rv2: RegistryView,
    res: Seq<EntryState>,
)
    requires
        spec_same_resolution(rv1, rv2),
    ensures
        spec_run_stages(children, inputs, rv1, res) == spec_run_stages(children, inputs, rv2, res),
        spec_alloc_stages(children, inputs, rv1, res) == spec_alloc_stages(
            children,
            inputs,
            rv2,
            res,
        ),
    decreases children,
{
    if children.len() > 0 {
        lemma_run_parallel_congruence(children[0], inputs, rv1, rv2, res);
        match spec_run_parallel(children[0], inputs, rv1, res) {
            Result::Ok(next) => {
                lemma_run_stages_congruence(children.drop_first(), next, rv1, rv2, res);
            },
            Result::Err(_) => {},
        }
    }
}

pub proof fn lemma_run_parallel_congruence(
    v: ParallelView,
    inputs: Seq<Seq<u8>>,
    rv1: RegistryView,
    rv2: RegistryView,
    res: Seq<EntryState>,
)
    requires
        spec_same_resolution(rv1, rv2),
    ensures
        spec_run_parallel(v, inputs, rv1, res) == spec_run_parallel(v, inputs, rv2, res),
        spec_alloc_parallel(v, inputs, rv1, res) == spec_alloc_parallel(v, inputs, rv2, res),
    decreases v,
{
    match v {
        ParallelView::Single(c) => {
            assert(spec_resolve(rv1, c.module) == spec_resolve(rv2, c.module));
        },
        ParallelView::Multiple(children) => {
            lemma_run_children_congruence(children, inputs, rv1, rv2, res);
        },
    }
}

// ------------------------------------------------------------------
// The executable engine.
// ------------------------------------------------------------------

/// Every reference count has room to grow.
pub open spec fn spec_counters_bounded(states: Seq<EntryState>) -> bool {
    forall|k: int| 0 <= k < states.len() ==> (#[trigger] states[k]).counter < usize::MAX
}

/// What every engine step guarantees about the host state: the arena only
/// grows, the resource table is exactly restored, and module resolution
/// is unchanged.
pub open spec fn spec_host_preserved(
    reg0: ModuleRegistry,
    reg1: ModuleRegistry,
    res0: ResourceRegistry,
    res1: ResourceRegistry,
    al0: ModuleAllocator,
    al1: ModuleAllocator,
) -> bool {
    &&& res1.wf()
    &&& res1.spec_states() == res0.spec_states()
    &&& al1.wf()
    &&& al0.extends(al1)
    &&& spec_same_resolution(reg1.view_of(), reg0.view_of())
    &&& reg1.view_of().available == reg0.view_of().available
}

/// Run one command: load its module, hand it the input bytes, and wrap
/// its output buffer as the stage's single output payload.
fn process_single(
    registry: &mut ModuleRegistry,
    resources: &mut ResourceRegistry,
    allocator: &mut ModuleAllocator,
    command: &PipelineCommand,
    input: &Vec<PipelineData>,
) -> (r: Result<Vec<PipelineData>, PipelineError>)
    requires
        old(resources).wf(),
        spec_counters_bounded(old(resources).spec_states()),
        old(allocator).wf(),
        spec_payloads_valid(old(allocator).buffers(), input@),
        old(allocator).spec_total_size() + spec_alloc_single(
            spec_command_view(*command),
            spec_payload_bytes(old(allocator).buffers(), input@),
            old(registry).view_of(),
            old(resources).spec_states(),
        ) <= usize::MAX,
    ensures
        spec_host_preserved(
            *old(registry),
            *final(registry),
            *old(resources),
            *final(resources),
            *old(allocator),
            *final(allocator),
        ),
        final(allocator).spec_total_size() == old(allocator).spec_total_size()
            + spec_alloc_single(
            spec_command_view(*command),
            spec_payload_bytes(old(allocator).buffers(), input@),
            old(registry).view_of(),
            old(resources).spec_states(),
        ),
        ({
            let outcome = spec_process_single(
                spec_command_view(*command),
                spec_payload_bytes(old(allocator).buffers(), input@),
                old(registry).view_of(),
                old(resources).spec_states(),
            );
            match r {
                Result::Ok(outs) => {
                    &&& outcome is Ok
                    &&& spec_payloads_valid(final(allocator).buffers(), outs@)
                    &&& spec_payload_bytes(final(allocator).buffers(), outs@) =~= outcome->Ok_0
                },
                Result::Err(e) => outcome == Result::<Seq<Seq<u8>>, PipelineErrorView>::Err(
                    spec_error_view(e),
                ),
            }
        }),
{
    let ghost rv0 = registry.view_of();
    let ghost res0 = resources.spec_states();
    let ghost buf0 = allocator.buffers();
    proof {
        lemma_step_get_resolution(rv0, command.module@);
    }
    let idx = match registry.get_module(&command.module) {
        Result::Ok(i) => i,
        Result::Err(e) => {
            proof {
                assert(spec_resolve(rv0, command.module@) is None);
            }
            return Err(PipelineError::ModuleLoad(e));
        },
    };
    let mut in_bytes: Vec<Vec<u8>> = Vec::new();
    let mut i: usize = 0;
    proof {
        assert(in_bytes.deep_view() =~= spec_payload_bytes(buf0, input@.take(0)));
    }
    while i < input.len()
        invariant
            0 <= i <= input@.len(),
            allocator.buffers() == buf0,
            spec_payloads_valid(buf0, input@),
            in_bytes.deep_view() =~= spec_payload_bytes(buf0, input@.take(i as int)),
        decreases input@.len() - i,
    {
        let ghost prev = in_bytes.deep_view();
        let p = input[i];
        let b = clone_bytes(allocator.buffer(p.data));
        in_bytes.push(b);
        i = i + 1;
        proof {
            assert(in_bytes.deep_view() =~= prev.push(buf0[input@[i - 1].data as int]));
            assert(in_bytes.deep_view() =~= spec_payload_bytes(buf0, input@.take(i as int)));
        }
    }
    proof {
        assert(input@.take(input@.len() as int) =~= input@);
        assert(in_bytes.deep_view() =~= spec_payload_bytes(buf0, input@));
    }
    let m = registry.module(idx);
    let ghost mv = spec_module_view(*m);
    proof {
        assert(spec_resolve(rv0, command.module@) == Option::Some(mv));
        match spec_command_view(*command).parameters {
            Option::Some(ps) => {
                assert(command.parameters is Some);
            },
            Option::None => {},
        }
    }
    let call_result = m.call_run(
        allocator,
        resources,
        &command.command,
        command.parameters.as_ref(),
        &in_bytes,
    );
    match call_result {
        Result::Ok(res) => {
            let mut outs: Vec<PipelineData> = Vec::new();
            outs.push(PipelineData { data: res.output, size: res.output_size });
            proof {
                let outcome = spec_process_single(
                    spec_command_view(*command),
                    spec_payload_bytes(buf0, input@),
                    rv0,
                    res0,
                );
                assert(spec_payload_bytes(allocator.buffers(), outs@) =~= outcome->Ok_0);
                crate::allocator::lemma_size_sum_push(buf0, allocator.buffers().last());
                assert(allocator.buffers() =~= buf0.push(allocator.buffers().last()));
            }
            Ok(outs)
        },
        Result::Err(e) => {
            proof {
                assert(allocator.buffers() =~= buf0);
            }
            Err(PipelineError::ModuleRun(e))
        },
    }
}

pub proof fn lemma_run_children_congruence(
    children: Seq<SerialView>,
    inputs: Seq<Seq<u8>>,
    rv1: RegistryView,
    rv2: RegistryView,
    res: Seq<EntryState>,
)
    requires
        spec_same_resolution(rv1, rv2),
    ensures
        spec_run_children(children, inputs, rv1, res) == spec_run_children(
            children,
            inputs,
            rv2,
            res,
        ),
        spec_alloc_children(children, inputs, rv1, res) == spec_alloc_children(
            children,
            inputs,
            rv2,
            res,
        ),
    decreases children,
{
    if children.len() > 0 {
        lemma_run_serial_congruence(children[0], inputs, rv1, rv2, res);
        lemma_run_children_congruence(children.drop_first(), inputs, rv1, rv2, res);
    }
}

/// Arena growth is transitive.
pub proof fn lemma_extends_trans(a: ModuleAllocator, b: ModuleAllocator, c: ModuleAllocator)
    requires
        a.extends(b),
        b.extends(c),
    ensures
        a.extends(c),
{
}

/// A copy of a payload list.
fn clone_payloads(v: &Vec<PipelineData>) -> (r: Vec<PipelineData>)
    ensures
        r@ =~= v@,
{
    let mut out: Vec<PipelineData> = Vec::new();
    let mut i: usize = 0;
    while i < v.len()
        invariant
            0 <= i <= v@.len(),
            out@.len() == i,
            forall|j: int| 0 <= j < i ==> out@[j] == v@[j],
        decreases v@.len() - i,
    {
        out.push(v[i]);
        i = i + 1;
    }
    out
}

impl PipelineNodeSerial {
    /// Run a serial node: a single command, or each stage in order with
    /// the previous stage's output as input.
    fn run(
        &self,
        registry: &mut ModuleRegistry,
        resources: &mut ResourceRegistry,
        allocator: &mut ModuleAllocator,
        input: Vec<PipelineData>,
    ) -> (r: Result<Vec<PipelineData>, PipelineError>)
        requires
            old(resources).wf(),
            spec_counters_bounded(old(resources).spec_states()),
            old(allocator).wf(),
            spec_payloads_valid(old(allocator).buffers(), input@),
            old(allocator).spec_total_size() + spec_alloc_serial(
                spec_serial_view(*self),
                spec_payload_bytes(old(allocator).buffers(), input@),
                old(registry).view_of(),
                old(resources).spec_states(),
            ) <= usize::MAX,
        ensures
            spec_host_preserved(
                *old(registry),
                *final(registry),
                *old(resources),
                *final(resources),
                *old(allocator),
                *final(allocator),
            ),
            final(allocator).spec_total_size() == old(allocator).spec_total_size()
                + spec_alloc_serial(
                spec_serial_view(*self),
                spec_payload_bytes(old(allocator).buffers(), input@),
                old(registry).view_of(),
                old(resources).spec_states(),
            ),
            ({
                let outcome = spec_run_serial(
                    spec_serial_view(*self),
                    spec_payload_bytes(old(allocator).buffers(), input@),
                    old(registry).view_of(),
                    old(resources).spec_states(),
                );
                match r {
                    Result::Ok(outs) => {
                        &&& outcome is Ok
                        &&& spec_payloads_valid(final(allocator).buffers(), outs@)
                        &&& spec_payload_bytes(final(allocator).buffers(), outs@)
                            =~= outcome->Ok_0
                    },
                    Result::Err(e) => outcome == Result::<Seq<Seq<u8>>, PipelineErrorView>::Err(
                        spec_error_view(e),
                    ),
                }
            }),
        decreases spec_serial_height(*self),
    {
        match self {
            PipelineNodeSerial::SerialSingle(c) => process_single(
                registry,
                resources,
                allocator,
                c,
                &input,
            ),
            PipelineNodeSerial::SerialMultiple(nodes) => {
                let ghost views = spec_parallel_views(nodes@);
                let ghost rv0 = registry.view_of();
                let ghost res0 = resources.spec_states();
                let ghost al0 = *allocator;
                let ghost bytes0 = spec_payload_bytes(allocator.buffers(), input@);
                let ghost whole = spec_run_stages(views, bytes0, rv0, res0);
                let ghost whole_alloc = spec_alloc_stages(views, bytes0, rv0, res0);
                proof {
                    lemma_parallel_views_len(nodes@);
                    assert(views.skip(0) =~= views);
                }
                let mut current = input;
                let mut i: usize = 0;
                while i < nodes.len()
                    invariant
                        0 <= i <= nodes@.len(),
                        *self == PipelineNodeSerial::SerialMultiple(*nodes),
                        views == spec_parallel_views(nodes@),
                        views.len() == nodes@.len(),
                        resources.wf(),
                        resources.spec_states() == res0,
                        res0 == old(resources).spec_states(),
                        spec_counters_bounded(res0),
                        allocator.wf(),
                        al0 == *old(allocator),
                        al0.extends(*allocator),
                        spec_same_resolution(registry.view_of(), rv0),
                        rv0 == old(registry).view_of(),
                        registry.view_of().available == rv0.available,
                        spec_payloads_valid(allocator.buffers(), current@),
                        bytes0 == spec_payload_bytes(al0.buffers(), input@),
                        whole == spec_run_stages(views, bytes0, rv0, res0),
                        whole_alloc == spec_alloc_stages(views, bytes0, rv0, res0),
                        al0.spec_total_size() + whole_alloc <= usize::MAX,
                        spec_run_stages(
                            views.skip(i as int),
                            spec_payload_bytes(allocator.buffers(), current@),
                            rv0,
                            res0,
                        ) == whole,
                        allocator.spec_total_size() + spec_alloc_stages(
                            views.skip(i as int),
                            spec_payload_bytes(allocator.buffers(), current@),
                            rv0,
                            res0,
                        ) == al0.spec_total_size() + whole_alloc,
                    decreases nodes@.len() - i,
                {
                    let ghost cur_bytes = spec_payload_bytes(allocator.buffers(), current@);
                    let ghost al_pre = *allocator;
                    proof {
                        lemma_parallel_views_index(nodes@, i as int);
                        lemma_parallel_height_index(nodes@, i as int);
                        assert(views.skip(i as int)[0] == views[i as int]);
                        assert(views.skip(i as int).drop_first() =~= views.skip(i + 1));
                        lemma_run_parallel_congruence(
                            views[i as int],
                            cur_bytes,
                            registry.view_of(),
                            rv0,
                            res0,
                        );
                        match spec_run_parallel(views[i as int], cur_bytes, rv0, res0) {
                            Result::Ok(next) => {
                                lemma_alloc_stages_nonneg(views.skip(i + 1), next, rv0, res0);
                            },
                            Result::Err(_) => {},
                        }
                        lemma_alloc_parallel_nonneg(views[i as int], cur_bytes, rv0, res0);
                    }
                    let step = nodes[i].run(registry, resources, allocator, current);
                    match step {
                        Result::Err(e) => {
                            proof {
                                assert(spec_run_parallel(views[i as int], cur_bytes, rv0, res0)
                                    == Result::<Seq<Seq<u8>>, PipelineErrorView>::Err(
                                    spec_error_view(e),
                                ));
                                assert(spec_alloc_stages(views.skip(i as int), cur_bytes, rv0, res0)
                                    == spec_alloc_parallel(views[i as int], cur_bytes, rv0, res0));
                                assert(allocator.spec_total_size() == al_pre.spec_total_size()
                                    + spec_alloc_parallel(views[i as int], cur_bytes, rv0, res0));
                                assert(al_pre.spec_total_size() + spec_alloc_stages(
                                    views.skip(i as int),
                                    cur_bytes,
                                    rv0,
                                    res0,
                                ) == al0.spec_total_size() + whole_alloc);
                                assert(allocator.spec_total_size() == al0.spec_total_size()
                                    + whole_alloc);
                                assert(spec_serial_view(*self) == SerialView::Multiple(views));
                                assert(spec_alloc_serial(SerialView::Multiple(views), bytes0, rv0, res0)
                                    == whole_alloc);
                                assert(spec_run_stages(views.skip(i as int), cur_bytes, rv0, res0)
                                    == Result::<Seq<Seq<u8>>, PipelineErrorView>::Err(
                                    spec_error_view(e),
                                ));
                                assert(whole == Result::<Seq<Seq<u8>>, PipelineErrorView>::Err(
                                    spec_error_view(e),
                                ));
                            }
                            return Err(e);
                        },
                        Result::Ok(next) => {
                            proof {
                                lemma_extends_trans(al0, al_pre, *allocator);
                            }
                            current = next;
                            i = i + 1;
                        },
                    }
                }
                proof {
                    assert(views.skip(nodes@.len() as int) =~= Seq::<ParallelView>::empty());
                }
                Ok(current)
            },
        }
    }
}

impl PipelineNodeParallel {
    /// Run a parallel node: a single command, or every child on the same
    /// input, concatenating the outputs in declaration order; any failing
    /// child fails the node after all children ran.
    fn run(
        &self,
        registry: &mut ModuleRegistry,
        resources: &mut ResourceRegistry,
        allocator: &mut ModuleAllocator,
        input: Vec<PipelineData>,
    ) -> (r: Result<Vec<PipelineData>, PipelineError>)
        requires
            old(resources).wf(),
            spec_counters_bounded(old(resources).spec_states()),
            old(allocator).wf(),
            spec_payloads_valid(old(allocator).buffers(), input@),
            old(allocator).spec_total_size() + spec_alloc_parallel(
                spec_parallel_view(*self),
                spec_payload_bytes(old(allocator).buffers(), input@),
                old(registry).view_of(),
                old(resources).spec_states(),
            ) <= usize::MAX,
        ensures
            spec_host_preserved(
                *old(registry),
                *final(registry),
                *old(resources),
                *final(resources),
                *old(allocator),
                *final(allocator),
            ),
            final(allocator).spec_total_size() == old(allocator).spec_total_size()
                + spec_alloc_parallel(
                spec_parallel_view(*self),
                spec_payload_bytes(old(allocator).buffers(), input@),
                old(registry).view_of(),
                old(resources).spec_states(),
            ),
            ({
                let outcome = spec_run_parallel(
                    spec_parallel_view(*self),
                    spec_payload_bytes(old(allocator).buffers(), input@),
                    old(registry).view_of(),
                    old(resources).spec_states(),
                );
                match r {
                    Result::Ok(outs) => {
                        &&& outcome is Ok
                        &&& spec_payloads_valid(final(allocator).buffers(), outs@)
                        &&& spec_payload_bytes(final(allocator).buffers(), outs@)
                            =~= outcome->Ok_0
                    },
                    Result::Err(e) => outcome == Result::<Seq<Seq<u8>>, PipelineErrorView>::Err(
                        spec_error_view(e),
                    ),
                }
            }),
        decreases spec_parallel_height(*self),
    {
        match self {
            PipelineNodeParallel::ParallelSingle(c) => process_single(
                registry,
                resources,
                allocator,
                c,
                &input,
            ),
            PipelineNodeParallel::ParallelMultiple(nodes) => {
                let ghost views = spec_serial_views(nodes@);
                let ghost rv0 = registry.view_of();
                let ghost res0 = resources.spec_states();
                let ghost al0 = *allocator;
                let ghost bytes0 = spec_payload_bytes(allocator.buffers(), input@);
                let ghost results = spec_run_children(views, bytes0, rv0, res0);
                let ghost whole_alloc = spec_alloc_children(views, bytes0, rv0, res0);
                proof {
                    lemma_serial_views_len(nodes@);
                    assert(views.skip(0) =~= views);
                    assert(results.skip(0) =~= results);
                    lemma_run_children_len(views, bytes0, rv0, res0);
                }
                let mut outputs: Vec<PipelineData> = Vec::new();
                let mut failed = false;
                let mut i: usize = 0;
                while i < nodes.len()
                    invariant
                        0 <= i <= nodes@.len(),
                        *self == PipelineNodeParallel::ParallelMultiple(*nodes),
                        views == spec_serial_views(nodes@),
                        views.len() == nodes@.len(),
                        results == spec_run_children(views, bytes0, rv0, res0),
                        results.len() == views.len(),
                        resources.wf(),
                        resources.spec_states() == res0,
                        res0 == old(resources).spec_states(),
                        spec_counters_bounded(res0),
                        allocator.wf(),
                        al0 == *old(allocator),
                        al0.extends(*allocator),
                        spec_same_resolution(registry.view_of(), rv0),
                        rv0 == old(registry).view_of(),
                        registry.view_of().available == rv0.available,
                        spec_payloads_valid(allocator.buffers(), input@),
                        spec_payload_bytes(allocator.buffers(), input@) == bytes0,
                        bytes0 == spec_payload_bytes(al0.buffers(), input@),
                        spec_run_children(views.skip(i as int), bytes0, rv0, res0)
                            == results.skip(i as int),
                        spec_payloads_valid(allocator.buffers(), outputs@),
                        spec_payload_bytes(allocator.buffers(), outputs@)
                            + spec_flatten_outputs(results.skip(i as int))
                            =~= spec_flatten_outputs(results),
                        failed <==> (exists|k: int| 0 <= k < i && results[k] is Err),
                        whole_alloc == spec_alloc_children(views, bytes0, rv0, res0),
                        al0.spec_total_size() + whole_alloc <= usize::MAX,
                        allocator.spec_total_size() + spec_alloc_children(
                            views.skip(i as int),
                            bytes0,
                            rv0,
                            res0,
                        ) == al0.spec_total_size() + whole_alloc,
                    decreases nodes@.len() - i,
                {
                    let ghost al_pre = *allocator;
                    proof {
                        lemma_serial_views_index(nodes@, i as int);
                        lemma_serial_height_index(nodes@, i as int);
                        assert(views.skip(i as int)[0] == views[i as int]);
                        assert(views.skip(i as int).drop_first() =~= views.skip(i + 1));
                        assert(results.skip(i as int)[0] == results[i as int]);
                        assert(results.skip(i as int).drop_first() =~= results.skip(i + 1));
                        lemma_run_serial_congruence(
                            views[i as int],
                            bytes0,
                            registry.view_of(),
                            rv0,
                            res0,
                        );
                        lemma_alloc_serial_nonneg(views[i as int], bytes0, rv0, res0);
                        lemma_alloc_children_nonneg(views.skip(i + 1), bytes0, rv0, res0);
                        assert(results[i as int] == spec_run_serial(
                            views[i as int],
                            bytes0,
                            rv0,
                            res0,
                        ));
                    }
                    let inp = clone_payloads(&input);
                    let step = nodes[i].run(registry, resources, allocator, inp);
                    proof {
                        lemma_extends_trans(al0, al_pre, *allocator);
                        lemma_payloads_stable(al_pre, *allocator, input@);
                        lemma_payloads_stable(al_pre, *allocator, outputs@);
                    }
                    match step {
                        Result::Ok(outs) => {
                            let ghost outputs_pre = outputs@;
                            let mut j: usize = 0;
                            while j < outs.len()
                                invariant
                                    0 <= j <= outs@.len(),
                                    outputs@ =~= outputs_pre + outs@.take(j as int),
                                decreases outs@.len() - j,
                            {
                                outputs.push(outs[j]);
                                j = j + 1;
                                proof {
                                    assert(outputs_pre + outs@.take(j as int) =~= (outputs_pre
                                        + outs@.take(j - 1)).push(outs@[j - 1]));
                                }
                            }
                            proof {
                                assert(outs@.take(outs@.len() as int) =~= outs@);
                                assert(outputs@ =~= outputs_pre + outs@);
                                assert(spec_payload_bytes(allocator.buffers(), outputs@)
                                    =~= spec_payload_bytes(allocator.buffers(), outputs_pre)
                                    + spec_payload_bytes(allocator.buffers(), outs@));
                            }
                            i = i + 1;
                        },
                        Result::Err(_) => {
                            failed = true;
                            i = i + 1;
                            proof {
                                assert(results[i - 1] is Err);
                            }
                        },
                    }
                }
                proof {
                    assert(views.skip(nodes@.len() as int) =~= Seq::<SerialView>::empty());
                    assert(results.skip(nodes@.len() as int) =~= Seq::<Result<
                        Seq<Seq<u8>>,
                        PipelineErrorView,
                    >>::empty());
                    assert(spec_flatten_outputs(
                        Seq::<Result<Seq<Seq<u8>>, PipelineErrorView>>::empty(),
                    ) =~= Seq::<Seq<u8>>::empty());
                }
                if failed {
                    Err(PipelineError::NodeFailed)
                } else {
                    proof {
                        assert(spec_payload_bytes(allocator.buffers(), outputs@)
                            + Seq::<Seq<u8>>::empty() =~= spec_payload_bytes(
                            allocator.buffers(),
                            outputs@,
                        ));
                        assert forall|k: int|
                            0 <= k < results.len() implies !(results[k] is Err) by {}
                    }
                    Ok(outputs)
                }
            },
        }
    }
}

impl Pipeline {
    /// Drive the whole graph over the given host state.
    ///
    /// On success every output payload denotes a buffer owned by the
    /// allocator; the allocator has only grown; the resource table is
    /// exactly as it was; and the output bytes are exactly what the run
    /// semantics assigns to the graph, the input and the initial host
    /// state.
    pub fn run(
        &self,
        registry: &mut ModuleRegistry,
        resources: &mut ResourceRegistry,
        allocator: &mut ModuleAllocator,
        input: Vec<PipelineData>,
    ) -> (r: Result<Vec<PipelineData>, PipelineError>)
        requires
            old(resources).wf(),
            spec_counters_bounded(old(resources).spec_states()),
            old(allocator).wf(),
            spec_payloads_valid(old(allocator).buffers(), input@),
            old(allocator).spec_total_size() + spec_alloc_serial(
                spec_serial_view(self.root),
                spec_payload_bytes(old(allocator).buffers(), input@),
                old(registry).view_of(),
                old(resources).spec_states(),
            ) <= usize::MAX,
        ensures
            spec_host_preserved(
                *old(registry),
                *final(registry),
                *old(resources),
                *final(resources),
                *old(allocator),
                *final(allocator),
            ),
            final(allocator).spec_total_size() >= old(allocator).spec_total_size(),
            ({
                let outcome = spec_run_serial(
                    spec_serial_view(self.root),
                    spec_payload_bytes(old(allocator).buffers(), input@),
                    old(registry).view_of(),
                    old(resources).spec_states(),
                );
                match r {
                    Result::Ok(outs) => {
                        &&& outcome is Ok
                        &&& spec_payloads_valid(final(allocator).buffers(), outs@)
                        &&& spec_payload_bytes(final(allocator).buffers(), outs@)
                            =~= outcome->Ok_0
                    },
                    Result::Err(e) => outcome == Result::<Seq<Seq<u8>>, PipelineErrorView>::Err(
                        spec_error_view(e),
                    ),
                }
            }),
    {
        proof {
            lemma_alloc_serial_nonneg(
                spec_serial_view(self.root),
                spec_payload_bytes(allocator.buffers(), input@),
                registry.view_of(),
                resources.spec_states(),
            );
        }
        self.root.run(registry, resources, allocator, input)
    }
}

// ------------------------------------------------------------------
// A valid graph maps a nonempty payload list to a nonempty one.
// ------------------------------------------------------------------

pub proof fn lemma_run_serial_nonempty(
    v: SerialView,
    inputs: Seq<Seq<u8>>,
    rv: RegistryView,
    res: Seq<EntryState>,
)
    requires
        crate::pipeline::spec_serial_valid(v),
        inputs.len() > 0,
    ensures
        spec_run_serial(v, inputs, rv, res) matches Result::Ok(outs) ==> outs.len() > 0,
    decreases v,
{
    match v {
        SerialView::Single(_) => {},
        SerialView::Multiple(children) => {
            lemma_run_stages_nonempty(children, inputs, rv, res);
        },
    }
}

pub proof fn lemma_run_stages_nonempty(
    children: Seq<ParallelView>,
    inputs: Seq<Seq<u8>>,
    rv: RegistryView,
    res: Seq<EntryState>,
)
    requires
        forall|i: int|
            0 <= i < children.len() ==> crate::pipeline::spec_parallel_valid(
                #[trigger] children[i],
            ),
        inputs.len() > 0,
    ensures
        spec_run_stages(children, inputs, rv, res) matches Result::Ok(outs) ==> outs.len() > 0,
    decreases children,
{
    if children.len() > 0 {
        lemma_run_parallel_nonempty(children[0], inputs, rv, res);
        match spec_run_parallel(children[0], inputs, rv, res) {
            Result::Ok(next) => {
                if next.len() > 0 {
                    assert forall|i: int|
                        0 <= i < children.drop_first().len() implies crate::pipeline::spec_parallel_valid(
                        #[trigger] children.drop_first()[i],
                    ) by {
                        assert(children.drop_first()[i] == children[i + 1]);
                    }
                    lemma_run_stages_nonempty(children.drop_first(), next, rv, res);
                }
            },
            Result::Err(_) => {},
        }
    }
}

pub proof fn lemma_run_parallel_nonempty(
    v: ParallelView,
    inputs: Seq<Seq<u8>>,
    rv: RegistryView,
    res: Seq<EntryState>,
)
    requires
        crate::pipeline::spec_parallel_valid(v),
        inputs.len() > 0,
    ensures
        spec_run_parallel(v, inputs, rv, res) matches Result::Ok(outs) ==> outs.len() > 0,
    decreases v,
{
    match v {
        ParallelView::Single(_) => {},
        ParallelView::Multiple(children) => {
            if spec_run_parallel(v, inputs, rv, res) is Ok {
                let results = spec_run_children(children, inputs, rv, res);
                lemma_run_children_len(children, inputs, rv, res);
                lemma_run_children_index(children, inputs, rv, res, 0);
                assert(!(results[0] is Err));
                lemma_run_serial_nonempty(children[0], inputs, rv, res);
                lemma_flatten_outputs_first(results);
            }
        },
    }
}

/// The flattened outputs hold at least the first successful child's.
proof fn lemma_flatten_outputs_first(results: Seq<Result<Seq<Seq<u8>>, PipelineErrorView>>)
    requires
        results.len() > 0,
    ensures
        spec_flatten_outputs(results).len() >= (match results[0] {
            Result::Ok(o) => o.len(),
            Result::Err(_) => 0,
        }),
{
    lemma_flatten_outputs_nonneg(results.drop_first());
}

proof fn lemma_flatten_outputs_nonneg(results: Seq<Result<Seq<Seq<u8>>, PipelineErrorView>>)
    ensures
        spec_flatten_outputs(results).len() >= 0,
{
}

// ------------------------------------------------------------------
// Laws of the engine.
// ------------------------------------------------------------------

/// The payload list stage `k` observes: the run's input for the first
/// stage, and from then on exactly what the previous stage produced.
pub open spec fn spec_stage_input(
    children: Seq<ParallelView>,
    inputs: Seq<Seq<u8>>,
    rv: RegistryView,
    res: Seq<EntryState>,
    k: int,
) -> Result<Seq<Seq<u8>>, PipelineErrorView>
    decreases k,
{
    if k <= 0 {
        Result::Ok(inputs)
    } else {
        match spec_stage_input(children, inputs, rv, res, k - 1) {
            Result::Err(e) => Result::Err(e),
            Result::Ok(cur) => spec_run_parallel(children[k - 1], cur, rv, res),
        }
    }
}

/// Serial threading: the input observed by stage `k + 1` is exactly the
/// output produced by stage `k`, and a serial node's outcome is the
/// stage-by-stage fold of its children over the run's input.
pub proof fn lemma_serial_threading(
    children: Seq<ParallelView>,
    inputs: Seq<Seq<u8>>,
    rv: RegistryView,
    res: Seq<EntryState>,
)
    ensures
        forall|k: int|
            0 <= k < children.len() ==> #[trigger] spec_stage_input(
                children,
                inputs,
                rv,
                res,
                k + 1,
            ) == (match spec_stage_input(children, inputs, rv, res, k) {
                Result::Err(e) => Result::Err(e),
                Result::Ok(cur) => spec_run_parallel(children[k], cur, rv, res),
            }),
        spec_run_serial(SerialView::Multiple(children), inputs, rv, res) == spec_stage_input(
            children,
            inputs,
            rv,
            res,
            children.len() as int,
        ),
{
    lemma_run_stages_as_fold(children, inputs, rv, res, children.len() as int);
    assert(children.skip(children.len() as int) =~= Seq::<ParallelView>::empty());
}

proof fn lemma_run_stages_as_fold(
    children: Seq<ParallelView>,
    inputs: Seq<Seq<u8>>,
    rv: RegistryView,
    res: Seq<EntryState>,
    k: int,
)
    requires
        0 <= k <= children.len(),
    ensures
        spec_run_stages(children, inputs, rv, res) == (match spec_stage_input(
            children,
            inputs,
            rv,
            res,
            k,
        ) {
            Result::Err(e) => Result::Err(e),
            Result::Ok(cur) => spec_run_stages(children.skip(k), cur, rv, res),
        }),
    decreases k,
{
    if k == 0 {
        assert(children.skip(0) =~= children);
    } else {
        lemma_run_stages_as_fold(children, inputs, rv, res, k - 1);
        match spec_stage_input(children, inputs, rv, res, k - 1) {
            Result::Err(_) => {},
            Result::Ok(cur) => {
                assert(children.skip(k - 1)[0] == children[k - 1]);
                assert(children.skip(k - 1).drop_first() =~= children.skip(k));
                assert(children.skip(k - 1).len() == children.len() - k + 1);
            },
        }
    }
}

/// Parallel composition: every child runs on the same input; when all
/// succeed, the node's output is the concatenation of the children's
/// outputs in declaration order; when any child fails, the node fails as
/// a whole.
pub proof fn lemma_parallel_concatenation(
    children: Seq<SerialView>,
    inputs: Seq<Seq<u8>>,
    rv: RegistryView,
    res: Seq<EntryState>,
)
    ensures
        ({
            let results = spec_run_children(children, inputs, rv, res);
            &&& results.len() == children.len()
            &&& forall|i: int|
                0 <= i < children.len() ==> #[trigger] results[i] == spec_run_serial(
                    children[i],
                    inputs,
                    rv,
                    res,
                )
            &&& ((forall|i: int| 0 <= i < children.len() ==> !((#[trigger] results[i]) is Err))
                ==> spec_run_parallel(ParallelView::Multiple(children), inputs, rv, res)
                == Result::<Seq<Seq<u8>>, PipelineErrorView>::Ok(spec_flatten_outputs(results)))
            &&& ((exists|i: int| 0 <= i < children.len() && (#[trigger] results[i]) is Err)
                ==> spec_run_parallel(ParallelView::Multiple(children), inputs, rv, res)
                == Result::<Seq<Seq<u8>>, PipelineErrorView>::Err(PipelineErrorView::NodeFailed))
        }),
{
    let results = spec_run_children(children, inputs, rv, res);
    lemma_run_children_len(children, inputs, rv, res);
    assert forall|i: int| 0 <= i < children.len() implies #[trigger] results[i]
        == spec_run_serial(children[i], inputs, rv, res) by {
        lemma_run_children_index(children, inputs, rv, res, i);
    }
}

/// A stage made of the byte-reversing command, applied twice, yields the
/// original input.
pub proof fn lemma_reverse_twice(
    cmd: CommandView,
    input: Seq<u8>,
    rv: RegistryView,
    res: Seq<EntryState>,
)
    requires
        spec_resolve(rv, cmd.module) matches Option::Some(mv) && crate::module::spec_find_command(
            mv.commands,
            cmd.command,
        ) == Option::Some(crate::module::CommandKindView::Reverse),
    ensures
        spec_run_serial(
            SerialView::Multiple(
                seq![ParallelView::Single(cmd), ParallelView::Single(cmd)],
            ),
            seq![input],
            rv,
            res,
        ) == Result::<Seq<Seq<u8>>, PipelineErrorView>::Ok(seq![input]),
{
    let children = seq![ParallelView::Single(cmd), ParallelView::Single(cmd)];
    let once = seq![input.reverse()];
    reveal_with_fuel(spec_run_stages, 4);
    assert(children.drop_first() =~= seq![ParallelView::Single(cmd)]);
    assert(children.drop_first().drop_first() =~= Seq::<ParallelView>::empty());
    assert(spec_process_single(cmd, seq![input], rv, res)
        == Result::<Seq<Seq<u8>>, PipelineErrorView>::Ok(once));
    assert(spec_process_single(cmd, once, rv, res)
        == Result::<Seq<Seq<u8>>, PipelineErrorView>::Ok(seq![input.reverse().reverse()]));
    assert(input.reverse().reverse() =~= input);
    assert(seq![input.reverse().reverse()] =~= seq![input]);
}

/// Each child's outcome in a parallel set.
pub proof fn lemma_run_children_index(
    children: Seq<SerialView>,
    inputs: Seq<Seq<u8>>,
    rv: RegistryView,
    res: Seq<EntryState>,
    i: int,
)
    requires
        0 <= i < children.len(),
    ensures
        spec_run_children(children, inputs, rv, res)[i] == spec_run_serial(
            children[i],
            inputs,
            rv,
            res,
        ),
    decreases children.len(),
{
    lemma_run_children_len(children, inputs, rv, res);
    if i > 0 {
        lemma_run_children_index(children.drop_first(), inputs, rv, res, i - 1);
        lemma_run_children_len(children.drop_first(), inputs, rv, res);
    }
}

/// The outcome list is as long as the child list.
pub proof fn lemma_run_children_len(
    children: Seq<SerialView>,
    inputs: Seq<Seq<u8>>,
    rv: RegistryView,
    res: Seq<EntryState>,
)
    ensures
        spec_run_children(children, inputs, rv, res).len() == children.len(),
    decreases children,
{
    if children.len() > 0 {
        lemma_run_children_len(children.drop_first(), inputs, rv, res);
    }
}

} // verus!
