use divvun_pipeline::allocator::{AllocationType, ModuleAllocator};
use divvun_pipeline::engine::PipelineError;
use divvun_pipeline::module::{CommandKind, Module, ModuleCommand, ModuleRunError};
use divvun_pipeline::pipeline::{
    Pipeline, PipelineCommand, PipelineData, PipelineNodeParallel, PipelineNodeSerial,
};
use divvun_pipeline::registry::ModuleRegistry;
use divvun_pipeline::resources::{LoadableResource, Resource, ResourceRegistry};
use divvun_pipeline::run::{run, PipelineRunConfiguration};

fn b(s: &str) -> Vec<u8> {
    s.as_bytes().to_vec()
}

fn reverse_module() -> Module {
    Module {
        name: b("reverse_string"),
        commands: vec![
            ModuleCommand { name: b("reverse"), kind: CommandKind::Reverse },
            ModuleCommand { name: b("reverse_resource"), kind: CommandKind::ReverseResource },
        ],
    }
}

fn concat_module() -> Module {
    Module {
        name: b("concat_strings"),
        commands: vec![ModuleCommand { name: b("concat"), kind: CommandKind::Concat }],
    }
}

fn do_things_module() -> Module {
    Module {
        name: b("do_things_strings"),
        commands: vec![
            ModuleCommand {
                name: b("badazzle"),
                kind: CommandKind::Constant(b("A BIG COMPUTATIONS DONE HERE")),
            },
            ModuleCommand {
                name: b("stuff"),
                kind: CommandKind::Constant(b("Here is a computation stuff!")),
            },
        ],
    }
}

fn failing_module() -> Module {
    Module {
        name: b("always_sad"),
        commands: vec![ModuleCommand { name: b("explode"), kind: CommandKind::Fail(b("boom")) }],
    }
}

fn cmd(module: &str, command: &str) -> PipelineCommand {
    PipelineCommand { module: b(module), command: b(command), parameters: None }
}

fn all_modules() -> Vec<Module> {
    vec![reverse_module(), concat_module(), do_things_module(), failing_module()]
}

fn single(module: &str, command: &str) -> Pipeline {
    Pipeline { root: PipelineNodeSerial::SerialSingle(cmd(module, command)) }
}

#[test]
fn scenario_single_reverse() {
    let pipeline = single("reverse_string", "reverse");
    let out = run(pipeline, ResourceRegistry::new(), all_modules(), b("hello")).unwrap();
    assert_eq!(out.output_bytes(), &b("olleh"));
}

#[test]
fn scenario_reverse_then_concat() {
    let pipeline = Pipeline {
        root: PipelineNodeSerial::SerialMultiple(vec![
            PipelineNodeParallel::ParallelSingle(cmd("reverse_string", "reverse")),
            PipelineNodeParallel::ParallelSingle(cmd("concat_strings", "concat")),
        ]),
    };
    let out = run(pipeline, ResourceRegistry::new(), all_modules(), b("abc")).unwrap();
    assert_eq!(out.output_bytes(), &b("cba"));
}

#[test]
fn scenario_parallel_declaration_order() {
    // One parallel stage: a serial [reverse, reverse] child beside a lone
    // reverse; the outputs are concatenated in declaration order.
    let pipeline = Pipeline {
        root: PipelineNodeSerial::SerialMultiple(vec![PipelineNodeParallel::ParallelMultiple(
            vec![
                PipelineNodeSerial::SerialMultiple(vec![
                    PipelineNodeParallel::ParallelSingle(cmd("reverse_string", "reverse")),
                    PipelineNodeParallel::ParallelSingle(cmd("reverse_string", "reverse")),
                ]),
                PipelineNodeSerial::SerialSingle(cmd("reverse_string", "reverse")),
            ],
        )]),
    };
    let mut registry = ModuleRegistry::new();
    for m in all_modules() {
        registry.install_module(m);
    }
    let mut resources = ResourceRegistry::new();
    let mut allocator = ModuleAllocator::new(AllocationType::Memory);
    let input = b("abc");
    let id = allocator.allocate(input.len());
    allocator.fill(id, &input);
    let payloads = vec![PipelineData { data: id, size: input.len() }];
    let outs = pipeline
        .run(&mut registry, &mut resources, &mut allocator, payloads)
        .unwrap();
    assert_eq!(outs.len(), 2);
    assert_eq!(allocator.buffer(outs[0].data), &b("abc"));
    assert_eq!(allocator.buffer(outs[1].data), &b("cba"));
    let mut joined = Vec::new();
    joined.extend_from_slice(allocator.buffer(outs[0].data));
    joined.extend_from_slice(allocator.buffer(outs[1].data));
    assert_eq!(joined, b("abccba"));
}

#[test]
fn scenario_reference_pipeline() {
    // [ reverse, [[badazzle, reverse], reverse], concat ]
    let pipeline = Pipeline {
        root: PipelineNodeSerial::SerialMultiple(vec![
            PipelineNodeParallel::ParallelSingle(cmd("reverse_string", "reverse")),
            PipelineNodeParallel::ParallelMultiple(vec![
                PipelineNodeSerial::SerialMultiple(vec![
                    PipelineNodeParallel::ParallelSingle(cmd("do_things_strings", "badazzle")),
                    PipelineNodeParallel::ParallelSingle(cmd("reverse_string", "reverse")),
                ]),
                PipelineNodeSerial::SerialSingle(cmd("reverse_string", "reverse")),
            ]),
            PipelineNodeParallel::ParallelSingle(cmd("concat_strings", "concat")),
        ]),
    };
    let out = run(pipeline, ResourceRegistry::new(), all_modules(), b("Hello world!")).unwrap();
    assert_eq!(out.output_bytes(), &b("EREH ENOD SNOITATUPMOC GIB AHello world!"));
}

#[test]
fn scenario_reverse_resource() {
    let mut resources = ResourceRegistry::new();
    resources.add_resource(&b("lol"), LoadableResource::from(Resource::Bytes(b("Hello"))));
    assert_eq!(resources.loaded_resources_count(), 0);
    let pipeline = Pipeline {
        root: PipelineNodeSerial::SerialSingle(PipelineCommand {
            module: b("reverse_string"),
            command: b("reverse_resource"),
            parameters: Some(vec![b("lol")]),
        }),
    };
    let mut registry = ModuleRegistry::new();
    for m in all_modules() {
        registry.install_module(m);
    }
    let mut allocator = ModuleAllocator::new(AllocationType::Memory);
    let input = b("ignored");
    let id = allocator.allocate(input.len());
    allocator.fill(id, &input);
    let payloads = vec![PipelineData { data: id, size: input.len() }];
    let outs = pipeline
        .run(&mut registry, &mut resources, &mut allocator, payloads)
        .unwrap();
    assert_eq!(allocator.buffer(outs[0].data), &b("olleH"));
    // The engine released every handle it took: the count is zero again.
    assert_eq!(resources.loaded_resources_count(), 0);
}

#[test]
fn scenario_module_error_surfaced_verbatim() {
    let pipeline = single("always_sad", "explode");
    match run(pipeline, ResourceRegistry::new(), all_modules(), b("x")) {
        Err(PipelineError::ModuleRun(e)) => {
            assert_eq!(e.pipeline_error().unwrap(), &b("boom"));
            match e {
                ModuleRunError::Error(msg) => assert_eq!(msg, b("boom")),
                _ => panic!("expected an error record"),
            }
        }
        _ => panic!("expected the module's error to surface"),
    }
}

#[test]
fn empty_input_payload() {
    let pipeline = single("reverse_string", "reverse");
    let out = run(pipeline, ResourceRegistry::new(), all_modules(), Vec::new()).unwrap();
    assert_eq!(out.output_bytes(), &Vec::<u8>::new());
}

#[test]
fn missing_module_fails_with_attempted_paths() {
    let pipeline = single("nowhere", "noop");
    match run(pipeline, ResourceRegistry::new(), all_modules(), b("x")) {
        Err(PipelineError::ModuleLoad(
            divvun_pipeline::registry::ModuleLoadError::LoadFailed(attempts),
        )) => {
            assert_eq!(attempts.len(), 2);
            assert_eq!(attempts[0], b("modules/nowhere.so"));
            assert_eq!(attempts[1], b("modules/nowhere.so"));
        }
        _ => panic!("expected a load failure"),
    }
}

#[test]
fn parallel_single_failing_child_fails_node() {
    let pipeline = Pipeline {
        root: PipelineNodeSerial::SerialMultiple(vec![PipelineNodeParallel::ParallelMultiple(
            vec![PipelineNodeSerial::SerialSingle(cmd("always_sad", "explode"))],
        )]),
    };
    match run(pipeline, ResourceRegistry::new(), all_modules(), b("x")) {
        Err(PipelineError::NodeFailed) => {}
        _ => panic!("expected the parallel node to fail"),
    }
}

#[test]
fn parallel_waits_for_siblings_of_a_failing_child() {
    // A failing child beside a healthy one still fails the node.
    let pipeline = Pipeline {
        root: PipelineNodeSerial::SerialMultiple(vec![PipelineNodeParallel::ParallelMultiple(
            vec![
                PipelineNodeSerial::SerialSingle(cmd("always_sad", "explode")),
                PipelineNodeSerial::SerialSingle(cmd("reverse_string", "reverse")),
            ],
        )]),
    };
    match run(pipeline, ResourceRegistry::new(), all_modules(), b("x")) {
        Err(PipelineError::NodeFailed) => {}
        _ => panic!("expected the parallel node to fail"),
    }
}

#[test]
fn unknown_command_message() {
    let pipeline = single("reverse_string", "transmogrify");
    match run(pipeline, ResourceRegistry::new(), all_modules(), b("x")) {
        Err(PipelineError::ModuleRun(ModuleRunError::Error(msg))) => {
            assert_eq!(msg, b("unknown command transmogrify"));
        }
        _ => panic!("expected an unknown-command error"),
    }
}

#[test]
fn reverse_without_input_reports_no_input() {
    let mut registry = ModuleRegistry::new();
    registry.install_module(reverse_module());
    let mut resources = ResourceRegistry::new();
    let mut allocator = ModuleAllocator::new(AllocationType::Memory);
    let pipeline = single("reverse_string", "reverse");
    let result = pipeline.run(&mut registry, &mut resources, &mut allocator, Vec::new());
    match result {
        Err(PipelineError::ModuleRun(ModuleRunError::Error(msg))) => {
            assert_eq!(msg, b("no input provided"));
        }
        _ => panic!("expected the no-input error"),
    }
}

#[test]
fn allocator_totals_grow_during_a_run() {
    let mut registry = ModuleRegistry::new();
    for m in all_modules() {
        registry.install_module(m);
    }
    let mut resources = ResourceRegistry::new();
    let mut allocator = ModuleAllocator::new(AllocationType::Memory);
    let input = b("grow");
    let id = allocator.allocate(input.len());
    allocator.fill(id, &input);
    let before = allocator.total_size();
    let pipeline = single("reverse_string", "reverse");
    let payloads = vec![PipelineData { data: id, size: input.len() }];
    let outs = pipeline
        .run(&mut registry, &mut resources, &mut allocator, payloads)
        .unwrap();
    let after = allocator.total_size();
    assert!(after >= before);
    assert_eq!(after, before + outs[0].size);
}

#[test]
fn file_backed_resource_is_mapped_only_during_the_run() {
    let mut resources = ResourceRegistry::new();
    resources.add_resource(
        &b("blob"),
        LoadableResource::from(Resource::File {
            path: b("blob.bin"),
            contents: Some(b("stressed")),
            mmap: None,
        }),
    );
    assert_eq!(resources.loaded_resources_count(), 0);
    let pipeline = Pipeline {
        root: PipelineNodeSerial::SerialSingle(PipelineCommand {
            module: b("reverse_string"),
            command: b("reverse_resource"),
            parameters: Some(vec![b("blob")]),
        }),
    };
    let out = run(pipeline, resources, all_modules(), b("x")).unwrap();
    assert_eq!(out.output_bytes(), &b("desserts"));
}

#[test]
fn missing_resource_is_a_module_error() {
    let pipeline = Pipeline {
        root: PipelineNodeSerial::SerialSingle(PipelineCommand {
            module: b("reverse_string"),
            command: b("reverse_resource"),
            parameters: Some(vec![b("ghost")]),
        }),
    };
    match run(pipeline, ResourceRegistry::new(), all_modules(), b("x")) {
        Err(PipelineError::ModuleRun(ModuleRunError::Error(msg))) => {
            assert_eq!(msg, b("missing resource ghost"));
        }
        _ => panic!("expected a missing-resource error"),
    }
}

#[test]
fn unreadable_file_resource_fails_to_map() {
    let mut resources = ResourceRegistry::new();
    resources.add_resource(
        &b("broken"),
        LoadableResource::from(Resource::File {
            path: b("broken.bin"),
            contents: None,
            mmap: None,
        }),
    );
    let pipeline = Pipeline {
        root: PipelineNodeSerial::SerialSingle(PipelineCommand {
            module: b("reverse_string"),
            command: b("reverse_resource"),
            parameters: Some(vec![b("broken")]),
        }),
    };
    match run(pipeline, resources, all_modules(), b("x")) {
        Err(PipelineError::ModuleRun(ModuleRunError::Error(msg))) => {
            assert_eq!(msg, b("failed to map resource broken"));
        }
        _ => panic!("expected a map failure to surface as a module error"),
    }
}

#[test]
fn declarative_text_to_output() {
    let text = b(
        r#"[{"module":"reverse_string","command":"reverse"},{"module":"concat_strings","command":"concat"}]"#,
    );
    let pipeline = divvun_pipeline::json::parse_pipeline(&text).unwrap();
    let out = run(pipeline, ResourceRegistry::new(), all_modules(), b("abc")).unwrap();
    assert_eq!(out.output_bytes(), &b("cba"));
}

#[test]
fn serial_stage_feeds_the_next_stage() {
    // Three reverse stages in a row: an odd count reverses the input.
    let pipeline = Pipeline {
        root: PipelineNodeSerial::SerialMultiple(vec![
            PipelineNodeParallel::ParallelSingle(cmd("reverse_string", "reverse")),
            PipelineNodeParallel::ParallelSingle(cmd("reverse_string", "reverse")),
            PipelineNodeParallel::ParallelSingle(cmd("reverse_string", "reverse")),
        ]),
    };
    let out = run(pipeline, ResourceRegistry::new(), all_modules(), b("stream")).unwrap();
    assert_eq!(out.output_bytes(), &b("maerts"));
}

#[test]
fn reverse_twice_is_the_identity() {
    let pipeline = Pipeline {
        root: PipelineNodeSerial::SerialMultiple(vec![
            PipelineNodeParallel::ParallelSingle(cmd("reverse_string", "reverse")),
            PipelineNodeParallel::ParallelSingle(cmd("reverse_string", "reverse")),
        ]),
    };
    let out = run(pipeline, ResourceRegistry::new(), all_modules(), b("any bytes at all"))
        .unwrap();
    assert_eq!(out.output_bytes(), &b("any bytes at all"));
}

#[test]
fn file_backed_allocator_behaves_like_memory() {
    let pipeline = single("reverse_string", "reverse");
    let configuration = PipelineRunConfiguration {
        module_search_path: b("modules"),
        pipeline,
        resources: ResourceRegistry::new(),
        modules: all_modules(),
        input: b("hello"),
        allocation_type: AllocationType::File,
    };
    let out = configuration.run().unwrap();
    assert_eq!(out.output_bytes(), &b("olleh"));
}
