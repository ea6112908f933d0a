//! The abstract syntax tree of a netlist, its ghost mirror over
//! character sequences, and the projection from a node to its kind.

use vstd::prelude::*;
use vstd::string::*;
use indexmap::IndexMap;
use crate::text::str_eq;
use crate::conns::conns_seq;

verus! {

/// The initial value of a latch, as decoded from the fifth positional
/// field of a `.latch` statement.
#[derive(Debug, Clone, PartialEq, Eq, Structural)]
pub enum LatchInit {
    ZER0,
    ONE,
    DONTCARE,
    UNKNOWN,
}

/// The latch initial value that a field with characters `s` decodes to.
pub open spec fn spec_latch_init(s: Seq<char>) -> LatchInit {
    if s == seq!['0'] {
        LatchInit::ZER0
    } else if s == seq!['1'] {
        LatchInit::ONE
    } else if s == seq!['2'] {
        LatchInit::DONTCARE
    } else {
        LatchInit::UNKNOWN
    }
}

impl LatchInit {
    /// Decode a latch initial-value field: `"0"`, `"1"` and `"2"` map to
    /// their variants, anything else to `UNKNOWN`.
    pub fn to_enum(i: &str) -> (r: LatchInit)
        ensures
            r == spec_latch_init(i@),
    {
        proof {
            reveal_strlit("0");
            reveal_strlit("1");
            reveal_strlit("2");
            assert("0"@ =~= seq!['0']);
            assert("1"@ =~= seq!['1']);
            assert("2"@ =~= seq!['2']);
        }
        if str_eq(i, "0") {
            LatchInit::ZER0
        } else if str_eq(i, "1") {
            LatchInit::ONE
        } else if str_eq(i, "2") {
            LatchInit::DONTCARE
        } else {
            LatchInit::UNKNOWN
        }
    }
}

/// One parsed BLIF construct.  A whole netlist parses to a sequence of
/// `Module` nodes whose `elems` hold the other variants in source order.
#[derive(Debug, PartialEq, Default)]
pub enum ParsedPrimitive {
    #[default]
    NOP,
    Input { name: String },
    Output { name: String },
    Lut { inputs: Vec<String>, output: String, table: Vec<Vec<u8>> },
    Gate { c: String, d: String, q: String, r: Option<String>, e: Option<String> },
    Latch { input: String, output: String, control: String, init: LatchInit },
    Subckt { name: String, conns: IndexMap<String, String> },
    Module { name: String, inputs: Vec<String>, outputs: Vec<String>, elems: Vec<ParsedPrimitive> },
}

/// The ghost mirror of `ParsedPrimitive`: the same shape with every
/// string replaced by its character sequence.  Contracts speak of parsed
/// nodes through this type.
pub ghost enum PrimV {
    NopV,
    InputV { name: Seq<char> },
    OutputV { name: Seq<char> },
    LutV { inputs: Seq<Seq<char>>, output: Seq<char>, table: Seq<Seq<u8>> },
    GateV { c: Seq<char>, d: Seq<char>, q: Seq<char>, r: Option<Seq<char>>, e: Option<Seq<char>> },
    LatchV { input: Seq<char>, output: Seq<char>, control: Seq<char>, init: LatchInit },
    SubcktV { name: Seq<char>, conns: Seq<(Seq<char>, Seq<char>)> },
    ModuleV { name: Seq<char>, inputs: Seq<Seq<char>>, outputs: Seq<Seq<char>>, elems: Seq<PrimV> },
}

/// The ghost mirror of one node.
pub open spec fn prim_view(p: ParsedPrimitive) -> PrimV
    decreases p,
{
    match p {
        ParsedPrimitive::NOP => PrimV::NopV,
        ParsedPrimitive::Input { name } => PrimV::InputV { name: name@ },
        ParsedPrimitive::Output { name } => PrimV::OutputV { name: name@ },
        ParsedPrimitive::Lut { inputs, output, table } => PrimV::LutV {
            inputs: inputs.deep_view(),
            output: output@,
            table: table.deep_view(),
        },
        ParsedPrimitive::Gate { c, d, q, r, e } => PrimV::GateV {
            c: c@,
            d: d@,
            q: q@,
            r: match r {
                Some(x) => Some(x@),
                None => None,
            },
            e: match e {
                Some(x) => Some(x@),
                None => None,
            },
        },
        ParsedPrimitive::Latch { input, output, control, init } => PrimV::LatchV {
            input: input@,
            output: output@,
            control: control@,
            init: init,
        },
        ParsedPrimitive::Subckt { name, conns } => PrimV::SubcktV {
            name: name@,
            conns: conns_seq(conns),
        },
        ParsedPrimitive::Module { name, inputs, outputs, elems } => PrimV::ModuleV {
            name: name@,
            inputs: inputs.deep_view(),
            outputs: outputs.deep_view(),
            elems: Seq::new(
                elems@.len(),
                |i: int|
                    if 0 <= i < elems@.len() {
                        prim_view(elems@[i])
                    } else {
                        PrimV::NopV
                    },
            ),
        },
    }
}

/// The ghost mirrors of a sequence of nodes.
pub open spec fn prims_view(v: Seq<ParsedPrimitive>) -> Seq<PrimV> {
    Seq::new(v.len(), |i: int| prim_view(v[i]))
}

/// The kind of an AST node, without its payload.
#[derive(Debug, Clone, PartialEq, Eq, Structural)]
pub enum PrimitiveKind {
    NopKind,
    InputKind,
    OutputKind,
    LutKind,
    GateKind,
    LatchKind,
    SubcktKind,
    ModuleKind,
}

/// The kind tag that a node projects to.
pub open spec fn spec_kind(p: ParsedPrimitive) -> PrimitiveKind {
    match p {
        ParsedPrimitive::NOP => PrimitiveKind::NopKind,
        ParsedPrimitive::Input { .. } => PrimitiveKind::InputKind,
        ParsedPrimitive::Output { .. } => PrimitiveKind::OutputKind,
        ParsedPrimitive::Lut { .. } => PrimitiveKind::LutKind,
        ParsedPrimitive::Gate { .. } => PrimitiveKind::GateKind,
        ParsedPrimitive::Latch { .. } => PrimitiveKind::LatchKind,
        ParsedPrimitive::Subckt { .. } => PrimitiveKind::SubcktKind,
        ParsedPrimitive::Module { .. } => PrimitiveKind::ModuleKind,
    }
}

impl ParsedPrimitive {
    /// Project a node to its kind tag, discarding the payload.
    pub fn kind(&self) -> (r: PrimitiveKind)
        ensures
            r == spec_kind(*self),
    {
        match self {
            ParsedPrimitive::NOP => PrimitiveKind::NopKind,
            ParsedPrimitive::Input { .. } => PrimitiveKind::InputKind,
            ParsedPrimitive::Output { .. } => PrimitiveKind::OutputKind,
            ParsedPrimitive::Lut { .. } => PrimitiveKind::LutKind,
            ParsedPrimitive::Gate { .. } => PrimitiveKind::GateKind,
            ParsedPrimitive::Latch { .. } => PrimitiveKind::LatchKind,
            ParsedPrimitive::Subckt { .. } => PrimitiveKind::SubcktKind,
            ParsedPrimitive::Module { .. } => PrimitiveKind::ModuleKind,
        }
    }

    /// Whether two nodes are of the same kind, whatever their payloads.
    /// Structural equality of full nodes is the derived `==`; this is
    /// the explicitly coarser, discriminant-only comparison.
    pub fn same_kind(&self, other: &ParsedPrimitive) -> (r: bool)
        ensures
            r == (spec_kind(*self) == spec_kind(*other)),
    {
        self.kind() == other.kind()
    }
}

} // verus!
