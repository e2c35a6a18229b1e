use divvun_pipeline::json::{parse_pipeline, serialize_pipeline};
use divvun_pipeline::pipeline::{
    Pipeline, PipelineCommand, PipelineNodeParallel, PipelineNodeSerial,
};

fn b(s: &str) -> Vec<u8> {
    s.as_bytes().to_vec()
}

fn cmd(module: &str, command: &str) -> PipelineCommand {
    PipelineCommand { module: b(module), command: b(command), parameters: None }
}

#[test]
fn parse_single_command() {
    let text = b(r#"{"module":"reverse_string","command":"reverse"}"#);
    let p = parse_pipeline(&text).unwrap();
    match &p.root {
        PipelineNodeSerial::SerialSingle(c) => {
            assert_eq!(c.module, b("reverse_string"));
            assert_eq!(c.command, b("reverse"));
            assert!(c.parameters.is_none());
        }
        _ => panic!("expected a single command"),
    }
}

#[test]
fn parse_with_parameters_and_whitespace() {
    let text = b(
        "[ {\"module\": \"reverse_string\",\n  \"command\": \"reverse_resource\",\n  \"parameters\": [\"lol\", \"extra\"] } ]",
    );
    let p = parse_pipeline(&text).unwrap();
    match &p.root {
        PipelineNodeSerial::SerialMultiple(nodes) => {
            assert_eq!(nodes.len(), 1);
            match &nodes[0] {
                PipelineNodeParallel::ParallelSingle(c) => {
                    assert_eq!(c.parameters.as_ref().unwrap().len(), 2);
                    assert_eq!(c.parameters.as_ref().unwrap()[0], b("lol"));
                    assert_eq!(c.parameters.as_ref().unwrap()[1], b("extra"));
                }
                _ => panic!("expected a command"),
            }
        }
        _ => panic!("expected a sequence"),
    }
}

#[test]
fn parse_nested_graph() {
    let text = b(
        r#"[{"module":"a","command":"x"},[[{"module":"b","command":"y"},{"module":"a","command":"x"}],{"module":"c","command":"z"}]]"#,
    );
    let p = parse_pipeline(&text).unwrap();
    match &p.root {
        PipelineNodeSerial::SerialMultiple(nodes) => {
            assert_eq!(nodes.len(), 2);
            assert!(matches!(&nodes[0], PipelineNodeParallel::ParallelSingle(_)));
            match &nodes[1] {
                PipelineNodeParallel::ParallelMultiple(children) => {
                    assert_eq!(children.len(), 2);
                }
                _ => panic!("expected a parallel set"),
            }
        }
        _ => panic!("expected a sequence"),
    }
}

#[test]
fn parse_rejects_empty_array() {
    assert!(parse_pipeline(&b("[]")).is_none());
}

#[test]
fn parse_rejects_empty_names() {
    assert!(parse_pipeline(&b(r#"{"module":"","command":"c"}"#)).is_none());
    assert!(parse_pipeline(&b(r#"{"module":"m","command":""}"#)).is_none());
}

#[test]
fn parse_rejects_trailing_text() {
    assert!(parse_pipeline(&b(r#"{"module":"m","command":"c"} extra"#)).is_none());
}

#[test]
fn parse_rejects_malformed_text() {
    assert!(parse_pipeline(&b("[")).is_none());
    assert!(parse_pipeline(&b("nonsense")).is_none());
    assert!(parse_pipeline(&b(r#"{"module":"m"}"#)).is_none());
}

#[test]
fn serialize_canonical_text() {
    let p = Pipeline {
        root: PipelineNodeSerial::SerialMultiple(vec![
            PipelineNodeParallel::ParallelSingle(cmd("a", "x")),
            PipelineNodeParallel::ParallelSingle(PipelineCommand {
                module: b("b"),
                command: b("y"),
                parameters: Some(vec![b("p1"), b("p2")]),
            }),
        ]),
    };
    let text = serialize_pipeline(&p);
    assert_eq!(
        text,
        b(
            r#"[{"module":"a","command":"x"},{"module":"b","command":"y","parameters":["p1","p2"]}]"#,
        ),
    );
}

#[test]
fn round_trip_preserves_the_graph() {
    let p = Pipeline {
        root: PipelineNodeSerial::SerialMultiple(vec![
            PipelineNodeParallel::ParallelSingle(cmd("reverse_string", "reverse")),
            PipelineNodeParallel::ParallelMultiple(vec![
                PipelineNodeSerial::SerialMultiple(vec![
                    PipelineNodeParallel::ParallelSingle(cmd("do_things_strings", "badazzle")),
                    PipelineNodeParallel::ParallelSingle(cmd("reverse_string", "reverse")),
                ]),
                PipelineNodeSerial::SerialSingle(cmd("reverse_string", "reverse")),
            ]),
            PipelineNodeParallel::ParallelSingle(cmd("concat_strings", "concat")),
        ]),
    };
    let text = serialize_pipeline(&p);
    let reparsed = parse_pipeline(&text).unwrap();
    // Structural equality through the canonical text: equal graphs have
    // equal canonical forms.
    assert_eq!(serialize_pipeline(&reparsed), text);
}

#[test]
fn round_trip_with_escapes() {
    let p = Pipeline {
        root: PipelineNodeSerial::SerialSingle(PipelineCommand {
            module: b("odd\"name\\with\nnoise"),
            command: b("run\tthis"),
            parameters: Some(vec![b("a/b")]),
        }),
    };
    let text = serialize_pipeline(&p);
    let reparsed = parse_pipeline(&text).unwrap();
    match &reparsed.root {
        PipelineNodeSerial::SerialSingle(c) => {
            assert_eq!(c.module, b("odd\"name\\with\nnoise"));
            assert_eq!(c.command, b("run\tthis"));
            assert_eq!(c.parameters.as_ref().unwrap()[0], b("a/b"));
        }
        _ => panic!("expected a single command"),
    }
}

#[test]
fn module_names_are_deduplicated() {
    let p = parse_pipeline(&b(
        r#"[{"module":"a","command":"x"},{"module":"b","command":"y"},{"module":"a","command":"z"}]"#,
    ))
    .unwrap();
    let names = p.root.module_names();
    assert_eq!(names.len(), 2);
    assert!(names.contains(&b("a")));
    assert!(names.contains(&b("b")));
}

#[test]
fn validate_accepts_parsed_graphs() {
    let p = parse_pipeline(&b(r#"[{"module":"a","command":"x"}]"#)).unwrap();
    assert!(p.root.validate());
}

#[test]
fn validate_rejects_empty_pieces() {
    let bad = Pipeline { root: PipelineNodeSerial::SerialMultiple(Vec::new()) };
    assert!(!bad.root.validate());
    let empty_name = Pipeline { root: PipelineNodeSerial::SerialSingle(cmd("", "x")) };
    assert!(!empty_name.root.validate());
}
