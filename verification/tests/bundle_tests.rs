use divvun_pipeline::file::{
    has_pipeline_extension, load_pipeline_bundle, BundleEntry, FileLoadError,
};
use divvun_pipeline::json::{parse_pipeline, serialize_pipeline};
use divvun_pipeline::run::run;

fn b(s: &str) -> Vec<u8> {
    s.as_bytes().to_vec()
}

fn entry(name: &str, stored: bool, data: &str) -> BundleEntry {
    BundleEntry { name: b(name), is_directory: false, stored, data: b(data) }
}

#[test]
fn bundle_with_definition_and_resources() {
    let entries = vec![
        entry("greeting.txt", true, "Hello"),
        entry("pipeline.json", true, r#"[{"module":"reverse_string","command":"reverse"}]"#),
        entry("extracted.bin", false, "bytes"),
    ];
    let (pipeline, mut resources) = load_pipeline_bundle(entries).unwrap();
    assert!(pipeline.root.validate());
    // A stored entry becomes an inline resource; a compressed one is
    // file-backed, mapped on first claim.
    let h = resources.get(&b("greeting.txt")).unwrap();
    assert_eq!(h.as_ptr().unwrap(), &b("Hello"));
    resources.release(h);
    let h = resources.get(&b("extracted.bin")).unwrap();
    assert_eq!(h.as_ptr().unwrap(), &b("bytes"));
    resources.release(h);
    assert_eq!(resources.loaded_resources_count(), 0);
}

#[test]
fn bundle_rejects_directories() {
    let entries = vec![BundleEntry {
        name: b("sub/"),
        is_directory: true,
        stored: true,
        data: Vec::new(),
    }];
    assert!(matches!(
        load_pipeline_bundle(entries),
        Err(FileLoadError::UnsupportedResource)
    ));
}

#[test]
fn bundle_without_definition() {
    let entries = vec![entry("only.txt", true, "x")];
    assert!(matches!(load_pipeline_bundle(entries), Err(FileLoadError::NoJsonFile)));
}

#[test]
fn bundle_with_malformed_definition() {
    let entries = vec![entry("pipeline.json", true, "not a pipeline")];
    assert!(matches!(load_pipeline_bundle(entries), Err(FileLoadError::BundleMalformed)));
}

#[test]
fn last_definition_wins() {
    let entries = vec![
        entry("first.json", true, r#"{"module":"a","command":"x"}"#),
        entry("second.json", true, r#"{"module":"b","command":"y"}"#),
    ];
    let (pipeline, _resources) = load_pipeline_bundle(entries).unwrap();
    assert_eq!(
        serialize_pipeline(&pipeline),
        b(r#"{"module":"b","command":"y"}"#),
    );
}

#[test]
fn loaded_bundle_round_trips_through_the_declarative_form() {
    let text = r#"[{"module":"reverse_string","command":"reverse"},[[{"module":"do_things_strings","command":"badazzle"},{"module":"reverse_string","command":"reverse"}],{"module":"reverse_string","command":"reverse"}],{"module":"concat_strings","command":"concat"}]"#;
    let entries = vec![entry("pipeline.json", true, text)];
    let (pipeline, _resources) = load_pipeline_bundle(entries).unwrap();
    let serialized = serialize_pipeline(&pipeline);
    let reparsed = parse_pipeline(&serialized).unwrap();
    assert_eq!(serialize_pipeline(&reparsed), serialized);
    // The canonical form of this graph is the text it came from.
    assert_eq!(serialized, b(text));
}

#[test]
fn bundle_end_to_end() {
    let entries = vec![
        entry("lol", true, "Hello"),
        entry(
            "pipeline.json",
            true,
            r#"{"module":"reverse_string","command":"reverse_resource","parameters":["lol"]}"#,
        ),
    ];
    let (pipeline, resources) = load_pipeline_bundle(entries).unwrap();
    let modules = vec![divvun_pipeline::module::Module {
        name: b("reverse_string"),
        commands: vec![
            divvun_pipeline::module::ModuleCommand {
                name: b("reverse"),
                kind: divvun_pipeline::module::CommandKind::Reverse,
            },
            divvun_pipeline::module::ModuleCommand {
                name: b("reverse_resource"),
                kind: divvun_pipeline::module::CommandKind::ReverseResource,
            },
        ],
    }];
    let out = run(pipeline, resources, modules, b("unused")).unwrap();
    assert_eq!(out.output_bytes(), &b("olleH"));
}

#[test]
fn pipeline_extension_check() {
    assert!(has_pipeline_extension(&b("bundle.zpipe")));
    assert!(!has_pipeline_extension(&b("bundle.zip")));
    assert!(!has_pipeline_extension(&b("zpipe")));
}
