//! Modules and the dispatch of one command call.
//!
//! A module declares a set of named commands; each command's observable
//! behaviour is one of a small family of byte transformations. Calling a
//! command takes the current input payloads, produces either an output
//! payload written into the host allocator or a serialized error record,
//! and leaves the resource registry exactly as it found it.

use vstd::prelude::*;
use vstd::string::StringSliceAdditionalSpecFns;

use crate::allocator::ModuleAllocator;
use crate::bytes::{bytes_eq, clone_bytes, extend_bytes, reverse_bytes};
use crate::interface::PipelineResource;
use crate::resources::{EntryState, ResourceError, ResourceRegistry};

verus! {

broadcast use crate::bytes::lemma_bytes_deep_view;

/// The behaviour of one module command.
pub enum CommandKind {
    /// Reverse the first input payload byte for byte.
    Reverse,
    /// Reverse the bytes of the resource named by the first parameter.
    ReverseResource,
    /// Concatenate every input payload in order.
    Concat,
    /// Return a fixed payload, ignoring the content of the inputs; at
    /// least one input must still be present.
    Constant(Vec<u8>),
    /// Fail with a fixed error record.
    Fail(Vec<u8>),
}

/// One command a module offers.
pub struct ModuleCommand {
    pub name: Vec<u8>,
    pub kind: CommandKind,
}

/// A loaded module: its name and the commands it exposes.
pub struct Module {
    pub name: Vec<u8>,
    pub commands: Vec<ModuleCommand>,
}

/// The result of a successful command call: the arena buffer holding the
/// output and its size.
#[derive(Clone, Copy, PartialEq, Eq, Structural, Debug)]
pub struct ModuleRunResult {
    pub output: usize,
    pub output_size: usize,
}

/// Why a command call failed.
#[derive(Debug)]
pub enum ModuleRunError {
    /// The module produced an error record; its message is carried here.
    Error(Vec<u8>),
    /// The module's initialization entry point reported failure.
    InitializeFailed,
    /// The module's metadata entry point reported failure.
    InfoFailed,
}

/// The error record a failed call carries, as bytes.
pub open spec fn spec_error_record(e: ModuleRunError) -> Seq<u8> {
    match e {
        ModuleRunError::Error(m) => m@,
        ModuleRunError::InitializeFailed => "module initialization failed".spec_bytes(),
        ModuleRunError::InfoFailed => "module metadata failed".spec_bytes(),
    }
}

impl ModuleRunError {
    /// The error record, when the module itself produced one.
    pub fn pipeline_error(&self) -> (r: Option<&Vec<u8>>)
        ensures
            match *self {
                ModuleRunError::Error(_) => r is Some && r->0@ == self->Error_0@,
                _ => r is None,
            },
    {
        match self {
            ModuleRunError::Error(e) => Option::Some(e),
            _ => Option::None,
        }
    }
}

// ------------------------------------------------------------------
// Mathematical views of modules.
// ------------------------------------------------------------------

pub ghost enum CommandKindView {
    Reverse,
    ReverseResource,
    Concat,
    Constant(Seq<u8>),
    Fail(Seq<u8>),
}

pub ghost struct ModuleCommandView {
    pub name: Seq<u8>,
    pub kind: CommandKindView,
}

pub ghost struct ModuleView {
    pub name: Seq<u8>,
    pub commands: Seq<ModuleCommandView>,
}

pub open spec fn spec_kind_view(k: CommandKind) -> CommandKindView {
    match k {
        CommandKind::Reverse => CommandKindView::Reverse,
        CommandKind::ReverseResource => CommandKindView::ReverseResource,
        CommandKind::Concat => CommandKindView::Concat,
        CommandKind::Constant(v) => CommandKindView::Constant(v@),
        CommandKind::Fail(v) => CommandKindView::Fail(v@),
    }
}

pub open spec fn spec_command_model(c: ModuleCommand) -> ModuleCommandView {
    ModuleCommandView { name: c.name@, kind: spec_kind_view(c.kind) }
}

pub open spec fn spec_module_view(m: Module) -> ModuleView {
    ModuleView {
        name: m.name@,
        commands: Seq::new(m.commands@.len(), |i: int| spec_command_model(m.commands@[i])),
    }
}

/// The first command of that name, if any.
pub open spec fn spec_find_command(cmds: Seq<ModuleCommandView>, name: Seq<u8>) -> Option<
    CommandKindView,
>
    decreases cmds.len(),
{
    if cmds.len() == 0 {
        Option::None
    } else if cmds[0].name == name {
        Option::Some(cmds[0].kind)
    } else {
        spec_find_command(cmds.drop_first(), name)
    }
}

// ------------------------------------------------------------------
// Resource lookup over the registry's observable state.
// ------------------------------------------------------------------

/// The first registry slot of that name, if any.
pub open spec fn spec_states_find(states: Seq<EntryState>, name: Seq<u8>) -> Option<
    EntryState,
>
    decreases states.len(),
{
    if states.len() == 0 {
        Option::None
    } else if states[0].name == name {
        Option::Some(states[0])
    } else {
        spec_states_find(states.drop_first(), name)
    }
}

/// In a well-formed registry, the state lookup agrees with the registry's
/// own `spec_find`.
pub proof fn lemma_states_find_agrees(r: ResourceRegistry, name: Seq<u8>)
    requires
        r.wf(),
    ensures
        match r.spec_find(name) {
            Option::Some(i) => spec_states_find(r.spec_states(), name) == Option::Some(
                r.spec_states()[i],
            ) && spec_states_find_index(r.spec_states(), name) == i,
            Option::None => spec_states_find(r.spec_states(), name) is None,
        },
{
    lemma_states_find_agrees_rec(r.spec_states(), name);
    match r.spec_find(name) {
        Option::Some(i) => {
            assert(r.spec_states()[i].name == name);
            let j = spec_states_find_index(r.spec_states(), name);
            if i != j {
                assert(r.spec_states()[j].name == name);
                assert(r.entries()[i].spec_name() == name);
                assert(r.entries()[j].spec_name() == name);
            }
        },
        Option::None => {
            if spec_states_find(r.spec_states(), name) is Some {
                let j = spec_states_find_index(r.spec_states(), name);
                assert(r.entries()[j].spec_name() == name);
            }
        },
    }
}

/// The index the state lookup stops at.
pub open spec fn spec_states_find_index(states: Seq<EntryState>, name: Seq<u8>) -> int
    decreases states.len(),
{
    if states.len() == 0 {
        0
    } else if states[0].name == name {
        0
    } else {
        1 + spec_states_find_index(states.drop_first(), name)
    }
}

proof fn lemma_states_find_agrees_rec(states: Seq<EntryState>, name: Seq<u8>)
    ensures
        match spec_states_find(states, name) {
            Option::Some(s) => {
                &&& 0 <= spec_states_find_index(states, name) < states.len()
                &&& states[spec_states_find_index(states, name)] == s
                &&& s.name == name
            },
            Option::None => forall|i: int| 0 <= i < states.len() ==> states[i].name != name,
        },
    decreases states.len(),
{
    if states.len() > 0 && states[0].name != name {
        lemma_states_find_agrees_rec(states.drop_first(), name);
        match spec_states_find(states.drop_first(), name) {
            Option::Some(_) => {
                let k = spec_states_find_index(states.drop_first(), name);
                assert(states.drop_first()[k] == states[k + 1]);
            },
            Option::None => {
                assert forall|i: int| 0 <= i < states.len() implies states[i].name != name by {
                    if i > 0 {
                        assert(states.drop_first()[i - 1] == states[i]);
                    }
                }
            },
        }
    }
}

// ------------------------------------------------------------------
// The error record texts the built-in behaviours produce.
// ------------------------------------------------------------------

pub open spec fn spec_msg_no_input() -> Seq<u8> {
    "no input provided".spec_bytes()
}

pub open spec fn spec_msg_parameter_required() -> Seq<u8> {
    "resource name parameter required".spec_bytes()
}

pub open spec fn spec_msg_unknown_command(command: Seq<u8>) -> Seq<u8> {
    "unknown command ".spec_bytes() + command
}

pub open spec fn spec_msg_missing_resource(name: Seq<u8>) -> Seq<u8> {
    "missing resource ".spec_bytes() + name
}

pub open spec fn spec_msg_resource_map_failed(name: Seq<u8>) -> Seq<u8> {
    "failed to map resource ".spec_bytes() + name
}

// ------------------------------------------------------------------
// The semantics of one command call.
// ------------------------------------------------------------------

/// What one behaviour yields: an output payload or an error record.
pub open spec fn spec_run_command(
    kind: CommandKindView,
    params: Seq<Seq<u8>>,
    inputs: Seq<Seq<u8>>,
    res: Seq<EntryState>,
) -> Result<Seq<u8>, Seq<u8>> {
    match kind {
        CommandKindView::Reverse => if inputs.len() == 0 {
            Result::Err(spec_msg_no_input())
        } else {
            Result::Ok(inputs[0].reverse())
        },
        CommandKindView::Concat => Result::Ok(inputs.flatten()),
        CommandKindView::Constant(v) => if inputs.len() == 0 {
            Result::Err(spec_msg_no_input())
        } else {
            Result::Ok(v)
        },
        CommandKindView::Fail(m) => Result::Err(m),
        CommandKindView::ReverseResource => if params.len() == 0 {
            Result::Err(spec_msg_parameter_required())
        } else {
            match spec_states_find(res, params[0]) {
                Option::None => Result::Err(spec_msg_missing_resource(params[0])),
                Option::Some(s) => match s.resource.source {
                    Option::None => Result::Err(spec_msg_resource_map_failed(params[0])),
                    Option::Some(bytes) => Result::Ok(bytes.reverse()),
                },
            }
        },
    }
}

/// What a whole module call yields.
pub open spec fn spec_call_module(
    m: ModuleView,
    command: Seq<u8>,
    params: Seq<Seq<u8>>,
    inputs: Seq<Seq<u8>>,
    res: Seq<EntryState>,
) -> Result<Seq<u8>, Seq<u8>> {
    match spec_find_command(m.commands, command) {
        Option::None => Result::Err(spec_msg_unknown_command(command)),
        Option::Some(kind) => spec_run_command(kind, params, inputs, res),
    }
}

/// The parameter list a call observes: absent means empty.
pub open spec fn spec_params_view(parameters: Option<&Vec<Vec<u8>>>) -> Seq<Seq<u8>> {
    match parameters {
        Option::Some(ps) => ps.deep_view(),
        Option::None => Seq::empty(),
    }
}

// ------------------------------------------------------------------
// Executable message builders.
// ------------------------------------------------------------------

fn msg_no_input() -> (r: Vec<u8>)
    ensures
        r@ == spec_msg_no_input(),
{
    vstd::slice::slice_to_vec("no input provided".as_bytes())
}

fn msg_parameter_required() -> (r: Vec<u8>)
    ensures
        r@ == spec_msg_parameter_required(),
{
    vstd::slice::slice_to_vec("resource name parameter required".as_bytes())
}

fn msg_unknown_command(command: &Vec<u8>) -> (r: Vec<u8>)
    ensures
        r@ == spec_msg_unknown_command(command@),
{
    let mut r = vstd::slice::slice_to_vec("unknown command ".as_bytes());
    extend_bytes(&mut r, command);
    r
}

fn msg_missing_resource(name: &Vec<u8>) -> (r: Vec<u8>)
    ensures
        r@ == spec_msg_missing_resource(name@),
{
    let mut r = vstd::slice::slice_to_vec("missing resource ".as_bytes());
    extend_bytes(&mut r, name);
    r
}

fn msg_resource_map_failed(name: &Vec<u8>) -> (r: Vec<u8>)
    ensures
        r@ == spec_msg_resource_map_failed(name@),
{
    let mut r = vstd::slice::slice_to_vec("failed to map resource ".as_bytes());
    extend_bytes(&mut r, name);
    r
}

// ------------------------------------------------------------------
// The call itself.
// ------------------------------------------------------------------

impl Module {
    /// Find the first command of the given name.
    fn find_command(&self, name: &Vec<u8>) -> (r: Option<usize>)
        ensures
            match r {
                Option::Some(i) => {
                    &&& i < self.commands@.len()
                    &&& spec_find_command(spec_module_view(*self).commands, name@)
                        == Option::Some(spec_kind_view(self.commands@[i as int].kind))
                },
                Option::None => spec_find_command(
                    spec_module_view(*self).commands,
                    name@,
                ) is None,
            },
    {
        let ghost cmds = spec_module_view(*self).commands;
        proof {
            assert(cmds.skip(0) =~= cmds);
        }
        let mut i: usize = 0;
        while i < self.commands.len()
            invariant
                0 <= i <= self.commands@.len(),
                cmds == spec_module_view(*self).commands,
                cmds.len() == self.commands@.len(),
                spec_find_command(cmds, name@) == spec_find_command(
                    cmds.skip(i as int),
                    name@,
                ),
                forall|j: int| 0 <= j < i ==> cmds[j].name != name@,
            decreases self.commands@.len() - i,
        {
            proof {
                assert(cmds[i as int] == spec_command_model(self.commands@[i as int]));
                assert(cmds.skip(i as int)[0] == cmds[i as int]);
            }
            if bytes_eq(&self.commands[i].name, name) {
                return Option::Some(i);
            }
            proof {
                assert(cmds.skip(i as int).drop_first() =~= cmds.skip(i + 1));
            }
            i = i + 1;
        }
        proof {
            assert(cmds.skip(i as int) =~= Seq::<ModuleCommandView>::empty());
        }
        Option::None
    }

    /// Execute one command: dispatch on its behaviour, write the output
    /// into the allocator, and hand resource claims straight back.
    pub fn call_run(
        &self,
        allocator: &mut ModuleAllocator,
        resources: &mut ResourceRegistry,
        command: &Vec<u8>,
        parameters: Option<&Vec<Vec<u8>>>,
        input: &Vec<Vec<u8>>,
    ) -> (r: Result<ModuleRunResult, ModuleRunError>)
        requires
            old(allocator).wf(),
            old(resources).wf(),
            forall|k: int|
                0 <= k < old(resources).spec_states().len() ==> (#[trigger] old(
                    resources,
                ).spec_states()[k]).counter < usize::MAX,
            (spec_call_module(
                spec_module_view(*self),
                command@,
                spec_params_view(parameters),
                input.deep_view(),
                old(resources).spec_states(),
            ) matches Result::Ok(o) ==> old(allocator).spec_total_size() + o.len() <= usize::MAX),
        ensures
            final(allocator).wf(),
            final(resources).wf(),
            final(resources).spec_states() =~= old(resources).spec_states(),
            old(allocator).extends(*final(allocator)),
            match r {
                Result::Ok(res) => {
                    &&& spec_call_module(
                        spec_module_view(*self),
                        command@,
                        spec_params_view(parameters),
                        input.deep_view(),
                        old(resources).spec_states(),
                    ) matches Result::Ok(o) && {
                        &&& res.output == old(allocator).buffers().len()
                        &&& res.output_size == o.len()
                        &&& final(allocator).buffers() =~= old(allocator).buffers().push(o)
                    }
                },
                Result::Err(ModuleRunError::Error(m)) => {
                    &&& spec_call_module(
                        spec_module_view(*self),
                        command@,
                        spec_params_view(parameters),
                        input.deep_view(),
                        old(resources).spec_states(),
                    ) == Result::<Seq<u8>, Seq<u8>>::Err(m@)
                    &&& final(allocator).buffers() == old(allocator).buffers()
                },
                _ => false,
            },
    {
        let found = self.find_command(command);
        let out_bytes: Vec<u8> = match found {
            Option::None => {
                return Err(ModuleRunError::Error(msg_unknown_command(command)));
            },
            Option::Some(ci) => {
                match &self.commands[ci].kind {
                    CommandKind::Reverse => {
                        if input.len() == 0 {
                            return Err(ModuleRunError::Error(msg_no_input()));
                        }
                        proof {
                            assert(input.deep_view()[0] == input@[0]@);
                        }
                        reverse_bytes(&input[0])
                    },
                    CommandKind::Concat => {
                        let mut out: Vec<u8> = Vec::new();
                        let mut i: usize = 0;
                        proof {
                            assert(input.deep_view().take(0) =~= Seq::<Seq<u8>>::empty());
                            assert(Seq::<Seq<u8>>::empty().flatten() =~= Seq::<u8>::empty());
                        }
                        while i < input.len()
                            invariant
                                0 <= i <= input@.len(),
                                input.deep_view().len() == input@.len(),
                                out@ == input.deep_view().take(i as int).flatten(),
                            decreases input@.len() - i,
                        {
                            extend_bytes(&mut out, &input[i]);
                            i = i + 1;
                            proof {
                                let dv = input.deep_view();
                                assert(dv.take(i as int).drop_last() =~= dv.take(i - 1));
                                assert(dv.take(i as int).last() == dv[i - 1]);
                                dv.take(i - 1).lemma_flatten_push(dv[i - 1]);
                                assert(dv.take(i - 1).push(dv[i - 1]) =~= dv.take(i as int));
                                assert(dv[i - 1] == input@[i - 1]@);
                            }
                        }
                        proof {
                            assert(input.deep_view().take(input@.len() as int) =~= input
                                .deep_view());
                        }
                        out
                    },
                    CommandKind::Constant(v) => {
                        if input.len() == 0 {
                            return Err(ModuleRunError::Error(msg_no_input()));
                        }
                        clone_bytes(v)
                    },
                    CommandKind::Fail(m) => {
                        return Err(ModuleRunError::Error(clone_bytes(m)));
                    },
                    CommandKind::ReverseResource => {
                        let name: &Vec<u8> = match parameters {
                            Option::None => {
                                return Err(ModuleRunError::Error(msg_parameter_required()));
                            },
                            Option::Some(ps) => {
                                if ps.len() == 0 {
                                    return Err(ModuleRunError::Error(msg_parameter_required()));
                                }
                                proof {
                                    assert(ps.deep_view()[0] == ps@[0]@);
                                }
                                &ps[0]
                            },
                        };
                        proof {
                            lemma_states_find_agrees(*resources, name@);
                            if resources.spec_contains(name@) {
                                let k = resources.spec_find(name@)->0;
                                assert(resources.spec_states()[k].counter == resources
                                    .spec_counter(name@));
                            }
                        }
                        match resources.get(name) {
                            Result::Err(ResourceError::Missing) => {
                                return Err(ModuleRunError::Error(msg_missing_resource(name)));
                            },
                            Result::Err(ResourceError::MapFailed) => {
                                return Err(
                                    ModuleRunError::Error(msg_resource_map_failed(name)),
                                );
                            },
                            Result::Ok(handle) => {
                                let loaded = PipelineResource::new(
                                    clone_bytes(name),
                                    match handle.as_ptr() {
                                        Option::Some(d) => clone_bytes(d),
                                        Option::None => Vec::new(),
                                    },
                                );
                                let reversed = reverse_bytes(loaded.as_ptr());
                                proof {
                                    let ghost oi = old(resources).spec_find(name@)->0;
                                    assert(resources.spec_states()[oi].name == name@);
                                }
                                resources.release(handle);
                                proof {
                                    assert(resources.spec_states() =~= old(
                                        resources,
                                    ).spec_states());
                                }
                                reversed
                            },
                        }
                    },
                }
            },
        };
        let id = allocator.allocate(out_bytes.len());
        allocator.fill(id, &out_bytes);
        proof {
            assert(allocator.buffers() =~= old(allocator).buffers().push(out_bytes@));
        }
        Ok(ModuleRunResult { output: id, output_size: out_bytes.len() })
    }
}

} // verus!
