//! Tests for the four statement parsers, one statement at a time.

use blif_parser::primitives::{LatchInit, ParsedPrimitive, PrimitiveKind};
use blif_parser::stmt::{gate_parser, latch_parser, lut_body_parser, subckt_parser};

#[test]
fn gate_known_and_unknown_roles() {
    let g = gate_parser("C=clk D=d Q=q X=ignored");
    match g {
        ParsedPrimitive::Gate { c, d, q, r, e } => {
            assert_eq!(c, "clk");
            assert_eq!(d, "d");
            assert_eq!(q, "q");
            assert_eq!(r, None);
            assert_eq!(e, None);
        }
        _ => panic!("expected a gate node"),
    }
}

#[test]
fn gate_reset_and_enable() {
    let g = gate_parser("C=ck D=din E=en Q=out R=rst");
    let want = ParsedPrimitive::Gate {
        c: "ck".to_string(),
        d: "din".to_string(),
        q: "out".to_string(),
        r: Some("rst".to_string()),
        e: Some("en".to_string()),
    };
    assert_eq!(g, want);
}

#[test]
fn gate_missing_roles_default_to_empty() {
    let g = gate_parser("Q=only");
    let want = ParsedPrimitive::Gate {
        c: "".to_string(),
        d: "".to_string(),
        q: "only".to_string(),
        r: None,
        e: None,
    };
    assert_eq!(g, want);
}

#[test]
fn gate_token_without_single_equals_is_skipped() {
    let g = gate_parser("C=a=b D=d Q=q noequals");
    let want = ParsedPrimitive::Gate {
        c: "".to_string(),
        d: "d".to_string(),
        q: "q".to_string(),
        r: None,
        e: None,
    };
    assert_eq!(g, want);
}

#[test]
fn latch_positional_fields() {
    let l = latch_parser("n1 n2 posedge n3 2").unwrap();
    let want = ParsedPrimitive::Latch {
        input: "n1".to_string(),
        output: "n2".to_string(),
        control: "n3".to_string(),
        init: LatchInit::DONTCARE,
    };
    assert_eq!(l, want);
}

#[test]
fn latch_short_line_defaults_to_unknown() {
    let l = latch_parser("a b").unwrap();
    let want = ParsedPrimitive::Latch {
        input: "a".to_string(),
        output: "b".to_string(),
        control: "".to_string(),
        init: LatchInit::UNKNOWN,
    };
    assert_eq!(l, want);
}

#[test]
fn latch_init_one_is_fatal() {
    let l = latch_parser("n1 n2 posedge n3 1");
    assert!(l.is_err());
}

#[test]
fn latch_init_decoding() {
    assert_eq!(LatchInit::to_enum("0"), LatchInit::ZER0);
    assert_eq!(LatchInit::to_enum("1"), LatchInit::ONE);
    assert_eq!(LatchInit::to_enum("2"), LatchInit::DONTCARE);
    assert_eq!(LatchInit::to_enum("3"), LatchInit::UNKNOWN);
    assert_eq!(LatchInit::to_enum(""), LatchInit::UNKNOWN);
}

#[test]
fn subckt_connections_in_textual_order() {
    let s = subckt_parser("adder B=y A=x CIN=c").unwrap();
    match s {
        ParsedPrimitive::Subckt { name, conns } => {
            assert_eq!(name, "adder");
            assert_eq!(conns.len(), 3);
            let p0 = conns.get_index(0).unwrap();
            let p1 = conns.get_index(1).unwrap();
            let p2 = conns.get_index(2).unwrap();
            assert_eq!((p0.0.as_str(), p0.1.as_str()), ("B", "y"));
            assert_eq!((p1.0.as_str(), p1.1.as_str()), ("A", "x"));
            assert_eq!((p2.0.as_str(), p2.1.as_str()), ("CIN", "c"));
        }
        _ => panic!("expected a subcircuit node"),
    }
}

#[test]
fn subckt_duplicate_formal_keeps_place_and_updates() {
    let s = subckt_parser("m A=x B=y A=z").unwrap();
    match s {
        ParsedPrimitive::Subckt { conns, .. } => {
            assert_eq!(conns.len(), 2);
            let p0 = conns.get_index(0).unwrap();
            let p1 = conns.get_index(1).unwrap();
            assert_eq!((p0.0.as_str(), p0.1.as_str()), ("A", "z"));
            assert_eq!((p1.0.as_str(), p1.1.as_str()), ("B", "y"));
        }
        _ => panic!("expected a subcircuit node"),
    }
}

#[test]
fn subckt_pair_without_equals_is_fatal() {
    assert!(subckt_parser("m A=x broken").is_err());
}

#[test]
fn subckt_value_keeps_text_after_first_equals() {
    let s = subckt_parser("m A=x=y").unwrap();
    match s {
        ParsedPrimitive::Subckt { conns, .. } => {
            let p0 = conns.get_index(0).unwrap();
            assert_eq!((p0.0.as_str(), p0.1.as_str()), ("A", "x=y"));
        }
        _ => panic!("expected a subcircuit node"),
    }
}

#[test]
fn lut_rows_match_inputs_positionally() {
    let (l, rest) = lut_body_parser("a b y\n10 1\n01 1").unwrap();
    assert_eq!(rest, "");
    let want = ParsedPrimitive::Lut {
        inputs: vec!["a".to_string(), "b".to_string()],
        output: "y".to_string(),
        table: vec![vec![1u8, 0u8], vec![0u8, 1u8]],
    };
    assert_eq!(l, want);
}

#[test]
fn lut_constant_input_column_removed() {
    let (l, _) = lut_body_parser("$true a b y\n110 1\n011 1").unwrap();
    let want = ParsedPrimitive::Lut {
        inputs: vec!["a".to_string(), "b".to_string()],
        output: "y".to_string(),
        table: vec![vec![1u8, 0u8], vec![1u8, 1u8]],
    };
    assert_eq!(l, want);
}

#[test]
fn lut_constant_false_input_removed_too() {
    let (l, _) = lut_body_parser("a $false y\n10 1").unwrap();
    let want = ParsedPrimitive::Lut {
        inputs: vec!["a".to_string()],
        output: "y".to_string(),
        table: vec![vec![1u8]],
    };
    assert_eq!(l, want);
}

#[test]
fn lut_invalid_bit_character_is_fatal() {
    assert!(lut_body_parser("a y\nx 1").is_err());
}

#[test]
fn lut_row_without_output_column_is_fatal() {
    assert!(lut_body_parser("a y\n1").is_err());
}

#[test]
fn kind_projection_and_same_kind() {
    let g = gate_parser("C=a D=b Q=c");
    let l = latch_parser("a b t c 0").unwrap();
    assert_eq!(g.kind(), PrimitiveKind::GateKind);
    assert_eq!(l.kind(), PrimitiveKind::LatchKind);
    assert!(!g.same_kind(&l));
    let g2 = gate_parser("C=x D=y Q=z");
    assert!(g.same_kind(&g2));
    assert_ne!(g, g2);
}
