use divvun_pipeline::resources::{
    LoadableResource, Resource, ResourceError, ResourceRegistry,
};

fn name(s: &str) -> Vec<u8> {
    s.as_bytes().to_vec()
}

#[test]
fn resources_test() {
    let mut registry = ResourceRegistry::new();
    let my_data = "Hello".as_bytes();
    registry.add_resource(
        &name("lol"),
        LoadableResource::from(Resource::Bytes(my_data.to_owned())),
    );

    assert_eq!(registry.loaded_resources_count(), 0);
    let resource = registry.get(&name("lol")).unwrap();
    assert_eq!(resource.size().unwrap(), 5);
    assert_eq!(registry.loaded_resources_count(), 1);
    registry.release(resource);
    assert_eq!(registry.loaded_resources_count(), 0);
}

#[test]
fn get_missing_resource() {
    let mut registry = ResourceRegistry::new();
    match registry.get(&name("absent")) {
        Err(ResourceError::Missing) => {}
        _ => panic!("expected a missing resource"),
    }
}

#[test]
fn file_resource_without_contents_fails_to_map() {
    let mut registry = ResourceRegistry::new();
    registry.add_resource(
        &name("broken"),
        LoadableResource::from(Resource::File {
            path: name("broken.bin"),
            contents: None,
            mmap: None,
        }),
    );
    match registry.get(&name("broken")) {
        Err(ResourceError::MapFailed) => {}
        _ => panic!("expected a map failure"),
    }
    assert_eq!(registry.loaded_resources_count(), 0);
}

#[test]
fn file_resource_maps_lazily_and_remaps() {
    let mut registry = ResourceRegistry::new();
    registry.add_resource(
        &name("data"),
        LoadableResource::from(Resource::File {
            path: name("data.bin"),
            contents: Some(vec![1, 2, 3]),
            mmap: None,
        }),
    );
    assert_eq!(registry.loaded_resources_count(), 0);
    let h1 = registry.get(&name("data")).unwrap();
    assert_eq!(h1.as_ptr().unwrap(), &vec![1, 2, 3]);
    assert_eq!(registry.loaded_resources_count(), 1);
    registry.release(h1);
    assert_eq!(registry.loaded_resources_count(), 0);
    // The map is dropped on the last release and rebuilt on the next claim.
    let h2 = registry.get(&name("data")).unwrap();
    assert_eq!(h2.as_ptr().unwrap(), &vec![1, 2, 3]);
    registry.release(h2);
}

#[test]
fn zero_sized_resource() {
    let mut registry = ResourceRegistry::new();
    registry.add_resource(&name("empty"), LoadableResource::from(Resource::Bytes(Vec::new())));
    let h = registry.get(&name("empty")).unwrap();
    assert_eq!(h.size().unwrap(), 0);
    registry.release(h);
    assert_eq!(registry.loaded_resources_count(), 0);
}

#[test]
fn repeated_get_counts_up_and_down() {
    let mut registry = ResourceRegistry::new();
    registry.add_resource(&name("x"), LoadableResource::from(Resource::Bytes(vec![7])));
    let a = registry.get(&name("x")).unwrap();
    let b = registry.get(&name("x")).unwrap();
    assert_eq!(registry.loaded_resources_count(), 1);
    registry.release(a);
    assert_eq!(registry.loaded_resources_count(), 1);
    registry.release(b);
    assert_eq!(registry.loaded_resources_count(), 0);
}

#[test]
fn duplicate_name_overwrites() {
    let mut registry = ResourceRegistry::new();
    registry.add_resource(&name("n"), LoadableResource::from(Resource::Bytes(vec![1])));
    registry.add_resource(&name("n"), LoadableResource::from(Resource::Bytes(vec![2, 3])));
    let h = registry.get(&name("n")).unwrap();
    assert_eq!(h.size().unwrap(), 2);
    assert_eq!(h.as_ptr().unwrap(), &vec![2, 3]);
    registry.release(h);
}

#[test]
fn resource_present_but_never_referenced_stays_unloaded() {
    let mut registry = ResourceRegistry::new();
    registry.add_resource(&name("idle"), LoadableResource::from(Resource::Bytes(vec![9])));
    assert_eq!(registry.loaded_resources_count(), 0);
}
