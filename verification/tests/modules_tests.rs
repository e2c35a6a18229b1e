use divvun_pipeline::allocator::{AllocationType, ModuleAllocator};
use divvun_pipeline::interface::PipelineResource;
use divvun_pipeline::module::{CommandKind, Module, ModuleCommand};
use divvun_pipeline::registry::{ModuleLoadError, ModuleRegistry};
use divvun_pipeline::resources::{LoadableResource, Resource, ResourceRegistry};

fn b(s: &str) -> Vec<u8> {
    s.as_bytes().to_vec()
}

fn reverse_module() -> Module {
    Module {
        name: b("reverse_string"),
        commands: vec![
            ModuleCommand { name: b("reverse"), kind: CommandKind::Reverse },
            ModuleCommand { name: b("reverse_resource"), kind: CommandKind::ReverseResource },
        ],
    }
}

fn setup_registry() -> ModuleRegistry {
    let mut registry = ModuleRegistry::new();
    registry.add_search_path(b("target/modules"));
    registry.install_module(reverse_module());
    registry
}

#[test]
fn load_run_input_reverse() {
    let mut registry = setup_registry();
    let idx = registry.get_module(&b("reverse_string")).unwrap();
    let mut allocator = ModuleAllocator::new(AllocationType::Memory);
    let mut resources = ResourceRegistry::new();

    let inputs = vec![b("hello")];
    let result = registry.module(idx).call_run(
        &mut allocator,
        &mut resources,
        &b("reverse"),
        None,
        &inputs,
    );
    let result = result.unwrap();
    assert_eq!(allocator.buffer(result.output), &b("olleh"));
    assert_eq!(result.output_size, 5);
}

#[test]
fn load_run_input_reverse_resource() {
    let mut registry = setup_registry();
    let mut resources = ResourceRegistry::new();
    let my_data = "Hello".as_bytes();
    resources.add_resource(
        &b("lol"),
        LoadableResource::from(Resource::Bytes(my_data.to_owned())),
    );

    let idx = registry.get_module(&b("reverse_string")).unwrap();
    let mut allocator = ModuleAllocator::new(AllocationType::Memory);

    let inputs = vec![b("lol")];
    let parameters = vec![b("lol")];
    let result = registry.module(idx).call_run(
        &mut allocator,
        &mut resources,
        &b("reverse_resource"),
        Some(&parameters),
        &inputs,
    );
    let result = result.unwrap();
    assert_eq!(allocator.buffer(result.output), &b("olleH"));
    assert_eq!(resources.loaded_resources_count(), 0);
}

#[test]
fn load_run_without_input_is_an_error() {
    let mut registry = setup_registry();
    let idx = registry.get_module(&b("reverse_string")).unwrap();
    let mut allocator = ModuleAllocator::new(AllocationType::Memory);
    let mut resources = ResourceRegistry::new();
    let inputs: Vec<Vec<u8>> = Vec::new();
    let result = registry.module(idx).call_run(
        &mut allocator,
        &mut resources,
        &b("reverse"),
        None,
        &inputs,
    );
    assert!(result.is_err());
}

#[test]
fn get_module_is_idempotent() {
    let mut registry = setup_registry();
    let first = registry.get_module(&b("reverse_string")).unwrap();
    let second = registry.get_module(&b("reverse_string")).unwrap();
    assert_eq!(first, second);
    assert_eq!(registry.module(first).name, registry.module(second).name);
}

#[test]
fn get_missing_module_reports_every_attempt() {
    let mut registry = setup_registry();
    match registry.get_module(&b("nope")) {
        Err(ModuleLoadError::LoadFailed(attempts)) => {
            assert_eq!(attempts.len(), 2);
            assert_eq!(attempts[0], b("modules/nope.so"));
            assert_eq!(attempts[1], b("target/modules/nope.so"));
        }
        _ => panic!("expected a load failure"),
    }
}

#[test]
fn reverse_resource_without_parameter_is_an_error() {
    let mut registry = setup_registry();
    let idx = registry.get_module(&b("reverse_string")).unwrap();
    let mut allocator = ModuleAllocator::new(AllocationType::Memory);
    let mut resources = ResourceRegistry::new();
    let inputs = vec![b("x")];
    let result = registry.module(idx).call_run(
        &mut allocator,
        &mut resources,
        &b("reverse_resource"),
        None,
        &inputs,
    );
    match result {
        Err(e) => assert_eq!(
            e.pipeline_error().unwrap(),
            &b("resource name parameter required"),
        ),
        _ => panic!("expected a parameter error"),
    }
}

#[test]
fn pipeline_resource_exposes_name_and_bytes() {
    let r = PipelineResource::new(b("lol"), b("Hello"));
    assert_eq!(r.name(), &b("lol"));
    assert_eq!(r.size(), 5);
    assert_eq!(r.as_ptr(), &b("Hello"));
    assert_eq!(r.as_slice(), "Hello".as_bytes());
}

#[test]
fn allocator_buffers_are_zeroed_and_totals_accumulate() {
    let mut allocator = ModuleAllocator::new_default();
    assert_eq!(allocator.total_size(), 0);
    let a = allocator.allocate(4);
    assert_eq!(allocator.buffer(a), &vec![0u8, 0, 0, 0]);
    assert_eq!(allocator.total_size(), 4);
    let b_id = allocator.allocate(3);
    assert_eq!(allocator.total_size(), 7);
    allocator.fill(b_id, &vec![1, 2, 3]);
    assert_eq!(allocator.total_size(), 7);
    assert_eq!(allocator.buffer(b_id), &vec![1, 2, 3]);
    assert_eq!(allocator.buffer(a), &vec![0u8, 0, 0, 0]);
    assert_eq!(allocator.buffer_count(), 2);
}
