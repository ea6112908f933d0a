//! Tests for the module driver and the whole-netlist entry point.

use blif_parser::parser::parse_blif;
use blif_parser::primitives::{LatchInit, ParsedPrimitive};

fn simple_file() -> &'static str {
    "# a comment line\n.model top\n.inputs a b\n.outputs y\n.names a b y\n11 1\n.end\n"
}

#[test]
fn single_module_parses() {
    let ast = parse_blif(simple_file()).unwrap();
    assert_eq!(ast.len(), 1);
    match &ast[0] {
        ParsedPrimitive::Module { name, inputs, outputs, elems } => {
            assert_eq!(name, "top");
            assert_eq!(inputs, &vec!["a".to_string(), "b".to_string()]);
            assert_eq!(outputs, &vec!["y".to_string()]);
            assert_eq!(elems.len(), 1);
            let want = ParsedPrimitive::Lut {
                inputs: vec!["a".to_string(), "b".to_string()],
                output: "y".to_string(),
                table: vec![vec![1u8, 1u8]],
            };
            assert_eq!(elems[0], want);
        }
        _ => panic!("expected a module node"),
    }
}

#[test]
fn file_without_leading_comment_parses() {
    let text = ".model top\n.inputs a\n.outputs y\n.names a y\n1 1\n.end\n";
    let ast = parse_blif(text).unwrap();
    assert_eq!(ast.len(), 1);
}

#[test]
fn two_modules_in_file_order() {
    let text = "\
.model m1\n.inputs a\n.outputs y\n.names a y\n1 1\n.end\n\
.model m2\n.inputs b c\n.outputs z\n.gate dff C=b D=c Q=z\n.end\n";
    let ast = parse_blif(text).unwrap();
    assert_eq!(ast.len(), 2);
    match &ast[0] {
        ParsedPrimitive::Module { name, inputs, outputs, elems } => {
            assert_eq!(name, "m1");
            assert_eq!(inputs, &vec!["a".to_string()]);
            assert_eq!(outputs, &vec!["y".to_string()]);
            assert_eq!(elems.len(), 1);
        }
        _ => panic!("expected a module node"),
    }
    match &ast[1] {
        ParsedPrimitive::Module { name, inputs, outputs, elems } => {
            assert_eq!(name, "m2");
            assert_eq!(inputs, &vec!["b".to_string(), "c".to_string()]);
            assert_eq!(outputs, &vec!["z".to_string()]);
            assert_eq!(elems.len(), 1);
            let want = ParsedPrimitive::Gate {
                c: "b".to_string(),
                d: "c".to_string(),
                q: "z".to_string(),
                r: None,
                e: None,
            };
            assert_eq!(elems[0], want);
        }
        _ => panic!("expected a module node"),
    }
}

#[test]
fn statements_kept_in_source_order() {
    let text = "\
.model m\n.inputs a c\n.outputs y\n\
.names a w\n1 1\n\
.latch w y re c 0\n\
.subckt other P=a Q=y\n\
.end\n";
    let ast = parse_blif(text).unwrap();
    match &ast[0] {
        ParsedPrimitive::Module { elems, .. } => {
            assert_eq!(elems.len(), 3);
            assert!(matches!(elems[0], ParsedPrimitive::Lut { .. }));
            assert!(matches!(elems[1], ParsedPrimitive::Latch { .. }));
            assert!(matches!(elems[2], ParsedPrimitive::Subckt { .. }));
            match &elems[1] {
                ParsedPrimitive::Latch { input, output, control, init } => {
                    assert_eq!(input, "w");
                    assert_eq!(output, "y");
                    assert_eq!(control, "c");
                    assert_eq!(init, &LatchInit::ZER0);
                }
                _ => panic!("expected a latch node"),
            }
        }
        _ => panic!("expected a module node"),
    }
}

#[test]
fn unrecognized_statement_keyword_is_skipped() {
    let text = ".model m\n.inputs a\n.outputs y\n.names a y\n1 1\n.wire a y\n.end\n";
    let ast = parse_blif(text).unwrap();
    match &ast[0] {
        ParsedPrimitive::Module { elems, .. } => {
            assert_eq!(elems.len(), 1);
            assert!(matches!(elems[0], ParsedPrimitive::Lut { .. }));
        }
        _ => panic!("expected a module node"),
    }
    let leading = ".model m\n.inputs a\n.outputs y\n.wire a y\n.end\n";
    let ast2 = parse_blif(leading).unwrap();
    match &ast2[0] {
        ParsedPrimitive::Module { elems, .. } => {
            assert_eq!(elems.len(), 0);
        }
        _ => panic!("expected a module node"),
    }
}

#[test]
fn parse_is_deterministic_across_calls() {
    let text = "\
.model m1\n.inputs a\n.outputs y\n.names a y\n1 1\n.end\n\
.model m2\n.inputs b\n.outputs z\n.latch b z re b 2\n.end\n";
    let first = parse_blif(text).unwrap();
    let second = parse_blif(text).unwrap();
    assert_eq!(first, second);
}

#[test]
fn latch_init_one_aborts_whole_parse() {
    let text = ".model m\n.inputs a c\n.outputs y\n.latch a y re c 1\n.end\n";
    let r = parse_blif(text);
    assert!(r.is_err());
}

#[test]
fn invalid_table_bit_aborts_whole_parse() {
    let text = ".model m\n.inputs a\n.outputs y\n.names a y\n2 1\n.end\n";
    assert!(parse_blif(text).is_err());
}

#[test]
fn missing_end_marker_is_fatal() {
    let text = ".model m\n.inputs a\n.outputs y\n.names a y\n1 1\n";
    assert!(parse_blif(text).is_err());
}

#[test]
fn text_without_statement_marker_is_fatal() {
    assert!(parse_blif("just words\n").is_err());
    assert!(parse_blif("").is_err());
    assert!(parse_blif("# only a comment\n").is_err());
}

#[test]
fn lut_with_constant_input_through_whole_parse() {
    let text = ".model m\n.inputs a b\n.outputs y\n.names $true a b y\n110 1\n011 1\n.end\n";
    let ast = parse_blif(text).unwrap();
    match &ast[0] {
        ParsedPrimitive::Module { elems, .. } => {
            let want = ParsedPrimitive::Lut {
                inputs: vec!["a".to_string(), "b".to_string()],
                output: "y".to_string(),
                table: vec![vec![1u8, 0u8], vec![1u8, 1u8]],
            };
            assert_eq!(elems[0], want);
        }
        _ => panic!("expected a module node"),
    }
}

#[test]
fn subckt_connection_order_through_whole_parse() {
    let text = ".model m\n.inputs a\n.outputs y\n.subckt inner B=y A=a\n.end\n";
    let ast = parse_blif(text).unwrap();
    match &ast[0] {
        ParsedPrimitive::Module { elems, .. } => match &elems[0] {
            ParsedPrimitive::Subckt { name, conns } => {
                assert_eq!(name, "inner");
                let p0 = conns.get_index(0).unwrap();
                let p1 = conns.get_index(1).unwrap();
                assert_eq!((p0.0.as_str(), p0.1.as_str()), ("B", "y"));
                assert_eq!((p1.0.as_str(), p1.1.as_str()), ("A", "a"));
            }
            _ => panic!("expected a subcircuit node"),
        },
        _ => panic!("expected a module node"),
    }
}
