//! The four statement parsers: lookup table, subcircuit, gate and
//! latch.  Each is specified against a spec-level decoding of the
//! statement's text, so that the node it emits is pinned down as a
//! function of the line (and, for a lookup table, of the truth-table
//! block that follows it).

use vstd::prelude::*;
use vstd::string::*;
use crate::text::{
    spec_find, spec_split, spec_line, lemma_spec_find, lemma_spec_split_len, split_char,
    find_char, str_eq, split_line,
};
use crate::primitives::{
    ParsedPrimitive, PrimV, LatchInit, prim_view, spec_latch_init,
};
use crate::conns::{conns_seq, spec_conns_insert, conns_new, conns_insert};

verus! {

// ---------------------------------------------------------------------
// Gate statements
// ---------------------------------------------------------------------

/// The five signal roles a `.gate` statement can bind, while they are
/// being collected.
pub ghost struct GateFields {
    pub c: Seq<char>,
    pub d: Seq<char>,
    pub q: Seq<char>,
    pub r: Option<Seq<char>>,
    pub e: Option<Seq<char>>,
}

/// The roles before any token has been read: mandatory roles default to
/// the empty net name, optional roles to absent.
pub open spec fn spec_gate_init() -> GateFields {
    GateFields {
        c: Seq::<char>::empty(),
        d: Seq::<char>::empty(),
        q: Seq::<char>::empty(),
        r: None,
        e: None,
    }
}

/// What one token does to the collected roles.  A token without exactly
/// one `=`, or with an unrecognized role tag, is skipped.
pub open spec fn spec_gate_step(st: GateFields, tok: Seq<char>) -> GateFields {
    let i = spec_find(tok, '=');
    if i == tok.len() {
        st
    } else {
        let k = tok.take(i);
        let v = tok.skip(i + 1);
        if spec_find(v, '=') != v.len() {
            st
        } else if k == seq!['C'] {
            GateFields { c: v, ..st }
        } else if k == seq!['D'] {
            GateFields { d: v, ..st }
        } else if k == seq!['Q'] {
            GateFields { q: v, ..st }
        } else if k == seq!['R'] {
            GateFields { r: Some(v), ..st }
        } else if k == seq!['E'] {
            GateFields { e: Some(v), ..st }
        } else {
            st
        }
    }
}

/// The collected roles after reading every token in order.
pub open spec fn spec_gate_fold(toks: Seq<Seq<char>>, st: GateFields) -> GateFields
    decreases toks.len(),
{
    if toks.len() == 0 {
        st
    } else {
        spec_gate_fold(toks.skip(1), spec_gate_step(st, toks[0]))
    }
}

/// The flip-flop node that one statement line of role bindings yields.
pub open spec fn spec_gate(line: Seq<char>) -> PrimV {
    let st = spec_gate_fold(spec_split(line, ' '), spec_gate_init());
    PrimV::GateV { c: st.c, d: st.d, q: st.q, r: st.r, e: st.e }
}

/// Parse one `.gate` statement line of whitespace-separated `Role=net`
/// pairs.  `C`, `D` and `Q` are mandatory and default to the empty net
/// name; `R` and `E` are optional; unrecognized or malformed pairs are
/// skipped without error.
pub fn gate_parser(line: &str) -> (r: ParsedPrimitive)
    ensures
        prim_view(r) == spec_gate(line@),
{
    let toks = split_char(line, ' ');
    let mut c = String::new();
    let mut d = String::new();
    let mut q = String::new();
    let mut rr: Option<String> = None;
    let mut e: Option<String> = None;
    let ghost full = spec_split(line@, ' ');
    let mut idx: usize = 0;
    proof {
        assert(full.skip(0) =~= full);
    }
    while idx < toks.len()
        invariant
            0 <= idx <= toks.len(),
            toks.deep_view() == full,
            full == spec_split(line@, ' '),
            spec_gate_fold(full, spec_gate_init()) == spec_gate_fold(
                full.skip(idx as int),
                GateFields { c: c@, d: d@, q: q@, r: rr.deep_view(), e: e.deep_view() },
            ),
        decreases toks.len() - idx,
    {
        let ghost st = GateFields { c: c@, d: d@, q: q@, r: rr.deep_view(), e: e.deep_view() };
        let tok: &String = &toks[idx];
        proof {
            assert(full[idx as int] == tok@);
            assert(full.skip(idx as int)[0] == full[idx as int]);
            assert(full.skip(idx as int).skip(1) =~= full.skip(idx as int + 1));
        }
        let ts = tok.as_str();
        let n = ts.unicode_len();
        let i = find_char(ts, '=');
        if i != n {
            proof {
                lemma_spec_find(tok@, '=');
            }
            let k = ts.substring_char(0, i);
            let v = ts.substring_char(i + 1, n);
            let vrest = find_char(v, '=');
            if vrest == v.unicode_len() {
                proof {
                    reveal_strlit("C");
                    reveal_strlit("D");
                    reveal_strlit("Q");
                    reveal_strlit("R");
                    reveal_strlit("E");
                    assert("C"@ =~= seq!['C']);
                    assert("D"@ =~= seq!['D']);
                    assert("Q"@ =~= seq!['Q']);
                    assert("R"@ =~= seq!['R']);
                    assert("E"@ =~= seq!['E']);
                }
                if str_eq(k, "C") {
                    c = String::from_str(v);
                } else if str_eq(k, "D") {
                    d = String::from_str(v);
                } else if str_eq(k, "Q") {
                    q = String::from_str(v);
                } else if str_eq(k, "R") {
                    rr = Some(String::from_str(v));
                } else if str_eq(k, "E") {
                    e = Some(String::from_str(v));
                }
            }
        }
        proof {
            assert(GateFields { c: c@, d: d@, q: q@, r: rr.deep_view(), e: e.deep_view() }
                == spec_gate_step(st, tok@));
        }
        idx = idx + 1;
    }
    proof {
        assert(full.skip(toks.len() as int) =~= Seq::<Seq<char>>::empty());
    }
    ParsedPrimitive::Gate { c, d, q, r: rr, e }
}

// ---------------------------------------------------------------------
// Latch statements
// ---------------------------------------------------------------------

/// The latch node that a `.latch` statement line decodes to, or `None`
/// for the forbidden initial value `ONE`: reset-to-one behaviour is
/// encoded by transforming the driving lookup table, never by the
/// latch's own initial-value field, so `ONE` aborts the parse.
pub open spec fn spec_latch(line: Seq<char>) -> Option<PrimV> {
    let toks = spec_split(line, ' ');
    let input = if toks.len() > 0 { toks[0] } else { Seq::<char>::empty() };
    let output = if toks.len() > 1 { toks[1] } else { Seq::<char>::empty() };
    let control = if toks.len() > 3 { toks[3] } else { Seq::<char>::empty() };
    let init = if toks.len() > 4 { spec_latch_init(toks[4]) } else { LatchInit::UNKNOWN };
    if init == LatchInit::ONE {
        None
    } else {
        Some(PrimV::LatchV { input, output, control, init })
    }
}

/// A `.latch` line is rejected exactly when its fifth positional token
/// decodes to the initial value `ONE`.
pub proof fn lemma_latch_one_rejected(line: Seq<char>)
    ensures
        spec_latch(line) is None <==> (spec_split(line, ' ').len() > 4 && spec_latch_init(
            spec_split(line, ' ')[4],
        ) == LatchInit::ONE),
{
}

/// Parse one `.latch` statement line of positional tokens
/// `input output type control init`.  The third token (the edge or
/// trigger qualifier) is read but not retained; a decoded initial value
/// of `ONE` is a fatal parse error.
pub fn latch_parser(line: &str) -> (r: Result<ParsedPrimitive, String>)
    ensures
        match r {
            Ok(p) => spec_latch(line@) == Some(prim_view(p)),
            Err(_) => spec_latch(line@) is None,
        },
{
    let toks = split_char(line, ' ');
    let input = if toks.len() > 0 { toks[0].clone() } else { String::new() };
    let output = if toks.len() > 1 { toks[1].clone() } else { String::new() };
    let control = if toks.len() > 3 { toks[3].clone() } else { String::new() };
    let init = if toks.len() > 4 { LatchInit::to_enum(toks[4].as_str()) } else { LatchInit::UNKNOWN };
    if init == LatchInit::ONE {
        return Err(String::from_str("a latch must not reset to one"));
    }
    Ok(ParsedPrimitive::Latch { input, output, control, init })
}

// ---------------------------------------------------------------------
// Subcircuit statements
// ---------------------------------------------------------------------

/// Fold the `formal=actual` tokens of a `.subckt` line into the
/// connection sequence, in textual order.  A token without `=` is a
/// fatal parse error.
pub open spec fn spec_subckt_fold(
    toks: Seq<Seq<char>>,
    s: Seq<(Seq<char>, Seq<char>)>,
) -> Option<Seq<(Seq<char>, Seq<char>)>>
    decreases toks.len(),
{
    if toks.len() == 0 {
        Some(s)
    } else {
        let t = toks[0];
        let i = spec_find(t, '=');
        if i == t.len() {
            None
        } else {
            spec_subckt_fold(toks.skip(1), spec_conns_insert(s, t.take(i), t.skip(i + 1)))
        }
    }
}

/// The subcircuit node that a `.subckt` statement line decodes to: the
/// instantiated module's name, then the connections in textual order.
pub open spec fn spec_subckt(line: Seq<char>) -> Option<PrimV> {
    let toks = spec_split(line, ' ');
    match spec_subckt_fold(toks.skip(1), Seq::<(Seq<char>, Seq<char>)>::empty()) {
        None => None,
        Some(cs) => Some(PrimV::SubcktV { name: toks[0], conns: cs }),
    }
}

/// Parse one `.subckt` statement line: the instance's module name, then
/// whitespace-separated `formal=actual` pairs, kept in textual order.
pub fn subckt_parser(line: &str) -> (r: Result<ParsedPrimitive, String>)
    ensures
        match r {
            Ok(p) => spec_subckt(line@) == Some(prim_view(p)),
            Err(_) => spec_subckt(line@) is None,
        },
{
    let toks = split_char(line, ' ');
    let ghost full = spec_split(line@, ' ');
    proof {
        lemma_spec_split_len(line@, ' ');
    }
    let name = toks[0].clone();
    let mut conns = conns_new();
    let mut idx: usize = 1;
    proof {
        assert(conns_seq(conns) =~= Seq::<(Seq<char>, Seq<char>)>::empty());
    }
    while idx < toks.len()
        invariant
            1 <= idx <= toks.len() || (toks.len() == 0 && idx == 1),
            toks.deep_view() == full,
            full == spec_split(line@, ' '),
            spec_subckt_fold(full.skip(1), Seq::<(Seq<char>, Seq<char>)>::empty())
                == spec_subckt_fold(full.skip(idx as int), conns_seq(conns)),
        decreases toks.len() - idx,
    {
        let tok: &String = &toks[idx];
        proof {
            assert(full[idx as int] == tok@);
            assert(full.skip(idx as int)[0] == full[idx as int]);
            assert(full.skip(idx as int).skip(1) =~= full.skip(idx as int + 1));
        }
        let ts = tok.as_str();
        let n = ts.unicode_len();
        let i = find_char(ts, '=');
        if i == n {
            return Err(String::from_str("subcircuit connection without '='"));
        }
        proof {
            lemma_spec_find(tok@, '=');
        }
        let k = ts.substring_char(0, i);
        let v = ts.substring_char(i + 1, n);
        conns_insert(&mut conns, String::from_str(k), String::from_str(v));
        idx = idx + 1;
    }
    proof {
        assert(full.skip(toks.len() as int) =~= Seq::<Seq<char>>::empty());
    }
    Ok(ParsedPrimitive::Subckt { name, conns })
}

// ---------------------------------------------------------------------
// Lookup-table statements
// ---------------------------------------------------------------------

/// The bit a truth-table character decodes to; only `0` and `1` are
/// valid.
pub open spec fn spec_bit(c: char) -> Option<u8> {
    if c == '0' {
        Some(0u8)
    } else if c == '1' {
        Some(1u8)
    } else {
        None
    }
}

/// The row a bit pattern decodes to, one bit per character, or `None`
/// if any character is not a bit: an invalid bit character is a fatal
/// parse error.
pub open spec fn spec_row(bits: Seq<char>) -> Option<Seq<u8>>
    decreases bits.len(),
{
    if bits.len() == 0 {
        Some(Seq::<u8>::empty())
    } else {
        match spec_bit(bits[0]) {
            None => None,
            Some(b) => match spec_row(bits.skip(1)) {
                None => None,
                Some(r) => Some(seq![b] + r),
            },
        }
    }
}

/// A decoded row has one bit per pattern character, positionally.
pub proof fn lemma_spec_row_positional(bits: Seq<char>)
    requires
        spec_row(bits) is Some,
    ensures
        spec_row(bits)->0.len() == bits.len(),
        forall|j: int|
            0 <= j < bits.len() ==> spec_bit(bits[j]) == Some(spec_row(bits)->0[j]),
    decreases bits.len(),
{
    if bits.len() == 0 {
    } else {
        lemma_spec_row_positional(bits.skip(1));
        let r = spec_row(bits)->0;
        assert forall|j: int|
            0 <= j < bits.len() implies spec_bit(bits[j]) == Some(r[j]) by {
            if j > 0 {
                assert(bits.skip(1)[j - 1] == bits[j]);
                assert(r[j] == spec_row(bits.skip(1))->0[j - 1]);
            }
        }
    }
}

/// The rows a truth-table block decodes to: one row per line, each line
/// the bit pattern before its first space (the output column after the
/// space is read but not retained).  A line without a space, or with an
/// invalid bit character, is a fatal parse error.
pub open spec fn spec_table(t: Seq<char>) -> Option<Seq<Seq<u8>>>
    decreases t.len(),
{
    if t.len() == 0 {
        Some(Seq::<Seq<u8>>::empty())
    } else {
        let line = spec_line(t).0;
        let rest = spec_line(t).1;
        let sp = spec_find(line, ' ');
        if sp == line.len() {
            None
        } else {
            proof {
                lemma_spec_find(t, '\n');
            }
            match spec_row(line.take(sp)) {
                None => None,
                Some(row) => match spec_table(rest) {
                    None => None,
                    Some(rs) => Some(seq![row] + rs),
                },
            }
        }
    }
}

/// The reserved names of the constant-false and constant-true nets.
pub open spec fn is_const_name(n: Seq<char>) -> bool {
    n == seq!['$', 'f', 'a', 'l', 's', 'e'] || n == seq!['$', 't', 'r', 'u', 'e']
}

/// The input list from position `j` on with every constant-net entry
/// removed, relative order preserved.
pub open spec fn elide_inputs_from(inputs: Seq<Seq<char>>, j: int) -> Seq<Seq<char>>
    decreases inputs.len() - j
    when 0 <= j <= inputs.len()
{
    if j == inputs.len() {
        Seq::<Seq<char>>::empty()
    } else if is_const_name(inputs[j]) {
        elide_inputs_from(inputs, j + 1)
    } else {
        seq![inputs[j]] + elide_inputs_from(inputs, j + 1)
    }
}

/// The input list with every constant-net entry removed, relative order
/// preserved.
pub open spec fn elide_inputs(inputs: Seq<Seq<char>>) -> Seq<Seq<char>> {
    elide_inputs_from(inputs, 0)
}

/// The columns of one row from position `j` on, without those whose
/// input is a constant net; columns beyond the input list are kept.
pub open spec fn elide_row_from(row: Seq<u8>, inputs: Seq<Seq<char>>, j: int) -> Seq<u8>
    decreases row.len() - j
    when 0 <= j <= row.len()
{
    if j == row.len() {
        Seq::<u8>::empty()
    } else if j < inputs.len() && is_const_name(inputs[j]) {
        elide_row_from(row, inputs, j + 1)
    } else {
        seq![row[j]] + elide_row_from(row, inputs, j + 1)
    }
}

/// One row with the column of every constant-net input removed,
/// relative order of the remaining columns preserved.
pub open spec fn elide_row(row: Seq<u8>, inputs: Seq<Seq<char>>) -> Seq<u8> {
    elide_row_from(row, inputs, 0)
}

/// Every row of the table with its constant-input columns removed.
pub open spec fn elide_table(table: Seq<Seq<u8>>, inputs: Seq<Seq<char>>) -> Seq<Seq<u8>> {
    Seq::new(table.len(), |i: int| elide_row(table[i], inputs))
}

/// When no input from position `j` on is a constant net, input elision
/// from `j` keeps every entry.
proof fn lemma_elide_inputs_no_const_only(inputs: Seq<Seq<char>>, j: int)
    requires
        0 <= j <= inputs.len(),
        forall|i: int| j <= i < inputs.len() ==> !is_const_name(#[trigger] inputs[i]),
    ensures
        elide_inputs_from(inputs, j) == inputs.skip(j),
    decreases inputs.len() - j,
{
    if j == inputs.len() {
        assert(elide_inputs_from(inputs, j) =~= inputs.skip(j));
    } else {
        lemma_elide_inputs_no_const_only(inputs, j + 1);
        assert(elide_inputs_from(inputs, j) =~= inputs.skip(j));
    }
}

/// When no input is a constant net, elision changes nothing: the
/// emitted input list and every emitted row are the decoded ones.
pub proof fn lemma_elide_no_const(row: Seq<u8>, inputs: Seq<Seq<char>>)
    requires
        forall|i: int| 0 <= i < inputs.len() ==> !is_const_name(#[trigger] inputs[i]),
    ensures
        elide_inputs(inputs) == inputs,
        elide_row(row, inputs) == row,
{
    lemma_elide_inputs_no_const_only(inputs, 0);
    assert(inputs.skip(0) =~= inputs);
    lemma_elide_row_no_const_only(row, inputs, 0);
    assert(row.skip(0) =~= row);
}

/// When no input from position `j` on is a constant net, row elision
/// from `j` keeps every column.
proof fn lemma_elide_row_no_const_only(row: Seq<u8>, inputs: Seq<Seq<char>>, j: int)
    requires
        0 <= j <= row.len(),
        forall|i: int| 0 <= i < inputs.len() ==> !is_const_name(#[trigger] inputs[i]),
    ensures
        elide_row_from(row, inputs, j) == row.skip(j),
    decreases row.len() - j,
{
    if j == row.len() {
        assert(elide_row_from(row, inputs, j) =~= row.skip(j));
    } else {
        lemma_elide_row_no_const_only(row, inputs, j + 1);
        assert(elide_row_from(row, inputs, j) =~= row.skip(j));
    }
}

/// After elision a row's width equals the input count, whenever it did
/// before: removing a column and its input entry together keeps the
/// two in step.
pub proof fn lemma_elide_widths(row: Seq<u8>, inputs: Seq<Seq<char>>)
    requires
        row.len() == inputs.len(),
    ensures
        elide_row(row, inputs).len() == elide_inputs(inputs).len(),
{
    lemma_elide_widths_from(row, inputs, 0);
}

/// Elision from any one position onward removes as many columns from a
/// row as entries from an input list of the same width.
proof fn lemma_elide_widths_from(row: Seq<u8>, inputs: Seq<Seq<char>>, j: int)
    requires
        row.len() == inputs.len(),
        0 <= j <= row.len(),
    ensures
        elide_row_from(row, inputs, j).len() == elide_inputs_from(inputs, j).len(),
    decreases row.len() - j,
{
    if j == row.len() {
    } else {
        lemma_elide_widths_from(row, inputs, j + 1);
    }
}

/// Whenever every row of a table is as wide as the input list, every
/// row of the elided table is as wide as the elided input list: the
/// row-width invariant survives constant-input elision.
pub proof fn lemma_elide_table_widths(table: Seq<Seq<u8>>, inputs: Seq<Seq<char>>)
    requires
        forall|i: int| 0 <= i < table.len() ==> (#[trigger] table[i]).len() == inputs.len(),
    ensures
        elide_table(table, inputs).len() == table.len(),
        forall|i: int|
            0 <= i < table.len() ==> (#[trigger] elide_table(table, inputs)[i]).len()
                == elide_inputs(inputs).len(),
{
    assert forall|i: int|
        0 <= i < table.len() implies (#[trigger] elide_table(table, inputs)[i]).len()
        == elide_inputs(inputs).len() by {
        lemma_elide_widths(table[i], inputs);
    }
}

/// Whether a net name is one of the reserved constant-net names.
fn is_const_net(s: &str) -> (r: bool)
    ensures
        r == is_const_name(s@),
{
    proof {
        reveal_strlit("$false");
        reveal_strlit("$true");
        assert("$false"@ =~= seq!['$', 'f', 'a', 'l', 's', 'e']);
        assert("$true"@ =~= seq!['$', 't', 'r', 'u', 'e']);
    }
    str_eq(s, "$false") || str_eq(s, "$true")
}

/// The input list with constant-net entries removed.
fn elide_inputs_exec(inputs: &Vec<String>) -> (r: Vec<String>)
    ensures
        r.deep_view() == elide_inputs(inputs.deep_view()),
{
    let ghost full = inputs.deep_view();
    let mut out: Vec<String> = Vec::new();
    let mut i: usize = 0;
    while i < inputs.len()
        invariant
            0 <= i <= inputs.len(),
            full == inputs.deep_view(),
            elide_inputs(full) == out.deep_view() + elide_inputs_from(full, i as int),
        decreases inputs.len() - i,
    {
        let ghost prev = out.deep_view();
        proof {
            assert(full[i as int] == inputs@[i as int]@);
        }
        if !is_const_net(inputs[i].as_str()) {
            out.push(inputs[i].clone());
            proof {
                assert(out.deep_view() =~= prev.push(full[i as int]));
                assert(prev + (seq![full[i as int]] + elide_inputs_from(full, i as int + 1))
                    =~= out.deep_view() + elide_inputs_from(full, i as int + 1));
            }
        }
        i = i + 1;
    }
    proof {
        assert(out.deep_view() + Seq::<Seq<char>>::empty() =~= out.deep_view());
    }
    out
}

/// One row with its constant-input columns removed.
fn elide_row_exec(row: &Vec<u8>, inputs: &Vec<String>) -> (r: Vec<u8>)
    ensures
        r@ == elide_row(row@, inputs.deep_view()),
{
    let ghost frow = row@;
    let ghost finp = inputs.deep_view();
    let mut out: Vec<u8> = Vec::new();
    let mut i: usize = 0;
    while i < row.len()
        invariant
            0 <= i <= row.len(),
            frow == row@,
            finp == inputs.deep_view(),
            elide_row(frow, finp) == out@ + elide_row_from(frow, finp, i as int),
        decreases row.len() - i,
    {
        let ghost prev = out@;
        let keep: bool = if i < inputs.len() {
            proof {
                assert(finp[i as int] == inputs@[i as int]@);
            }
            !is_const_net(inputs[i].as_str())
        } else {
            true
        };
        if keep {
            out.push(row[i]);
            proof {
                assert(out@ =~= prev.push(frow[i as int]));
                assert(prev + (seq![frow[i as int]] + elide_row_from(frow, finp, i as int + 1))
                    =~= out@ + elide_row_from(frow, finp, i as int + 1));
            }
        }
        i = i + 1;
    }
    proof {
        assert(out@ + Seq::<u8>::empty() =~= out@);
    }
    out
}

/// Decode one truth-table bit pattern into a row of bits.
pub fn lut_table_row(bits: &str) -> (r: Result<Vec<u8>, String>)
    ensures
        match r {
            Ok(v) => spec_row(bits@) == Some(v@),
            Err(_) => spec_row(bits@) is None,
        },
{
    let n = bits.unicode_len();
    let mut row: Vec<u8> = Vec::new();
    let mut i: usize = 0;
    proof {
        assert(bits@.skip(0) =~= bits@);
    }
    while i < n
        invariant
            0 <= i <= n,
            n == bits@.len(),
            match spec_row(bits@.skip(i as int)) {
                Some(r) => spec_row(bits@) == Some(row@ + r),
                None => spec_row(bits@) is None,
            },
        decreases n - i,
    {
        let ghost prev = row@;
        proof {
            assert(bits@.skip(i as int)[0] == bits@[i as int]);
            assert(bits@.skip(i as int).skip(1) =~= bits@.skip(i as int + 1));
        }
        let c = bits.get_char(i);
        if c == '0' {
            row.push(0u8);
        } else if c == '1' {
            row.push(1u8);
        } else {
            return Err(String::from_str("invalid truth-table bit character"));
        }
        proof {
            assert(row@ =~= prev.push(spec_bit(bits@[i as int])->0));
            if spec_row(bits@.skip(i as int + 1)) is Some {
                let tail = spec_row(bits@.skip(i as int + 1))->0;
                assert(prev + (seq![spec_bit(bits@[i as int])->0] + tail) =~= row@ + tail);
            }
        }
        i = i + 1;
    }
    proof {
        assert(bits@.skip(n as int) =~= Seq::<char>::empty());
        assert(row@ + Seq::<u8>::empty() =~= row@);
    }
    Ok(row)
}

/// Decode a truth-table block, line by line, into its rows.
pub fn lut_table_parser(t: &str) -> (r: Result<Vec<Vec<u8>>, String>)
    ensures
        match r {
            Ok(v) => spec_table(t@) == Some(v.deep_view()),
            Err(_) => spec_table(t@) is None,
        },
{
    let mut rows: Vec<Vec<u8>> = Vec::new();
    let mut rest: &str = t;
    loop
        invariant
            match spec_table(rest@) {
                Some(rs) => spec_table(t@) == Some(rows.deep_view() + rs),
                None => spec_table(t@) is None,
            },
        decreases rest@.len(),
    {
        if rest.unicode_len() == 0 {
            proof {
                assert(rows.deep_view() + Seq::<Seq<u8>>::empty() =~~= rows.deep_view());
            }
            return Ok(rows);
        }
        let (line, rest2) = split_line(rest);
        proof {
            lemma_spec_find(rest@, '\n');
        }
        let sp = find_char(line, ' ');
        if sp == line.unicode_len() {
            return Err(String::from_str("truth-table row without an output column"));
        }
        proof {
            lemma_spec_find(line@, ' ');
        }
        let bits = line.substring_char(0, sp);
        let row = match lut_table_row(bits) {
            Ok(v) => v,
            Err(e) => {
                return Err(e);
            },
        };
        let ghost prev = rows.deep_view();
        rows.push(row);
        rest = rest2;
        proof {
            assert(rows.deep_view() =~~= prev.push(row@));
            if spec_table(rest@) is Some {
                let rs = spec_table(rest@)->0;
                assert(prev + (seq![row@] + rs) =~~= rows.deep_view() + rs);
            }
        }
    }
}

/// The lookup-table node that a `.names` statement decodes to, with the
/// text that remains after its truth-table block, or `None` on a fatal
/// table decoding error.  The last token of the port line is the output
/// net, the preceding ones the inputs; the block ends at the next `.`
/// or at the end of input; constant-net inputs are folded away.
pub open spec fn spec_lut(t: Seq<char>) -> Option<(PrimV, Seq<char>)> {
    let ioline = spec_line(t).0;
    let rest1 = spec_line(t).1;
    let io = spec_split(ioline, ' ');
    let output = io.last();
    let inputs0 = io.drop_last();
    let ti = spec_find(rest1, '.');
    let ttext = rest1.take(ti);
    let rest2 = rest1.skip(ti);
    match spec_table(ttext) {
        None => None,
        Some(rows) => Some(
            (
                PrimV::LutV {
                    inputs: elide_inputs(inputs0),
                    output: output,
                    table: elide_table(rows, inputs0),
                },
                rest2,
            ),
        ),
    }
}

/// A lookup-table statement never lengthens the text that remains
/// after it.
pub proof fn lemma_spec_lut_rest(t: Seq<char>)
    ensures
        match spec_lut(t) {
            Some(p) => p.1.len() <= t.len(),
            None => true,
        },
{
    crate::text::lemma_spec_line_len(t);
    lemma_spec_find(spec_line(t).1, '.');
}

/// Parse one `.names` statement: the port line, then the truth-table
/// block that runs until the next statement or the end of input.
pub fn lut_body_parser<'a>(t: &'a str) -> (r: Result<(ParsedPrimitive, &'a str), String>)
    ensures
        match r {
            Ok(p) => spec_lut(t@) == Some((prim_view(p.0), p.1@)),
            Err(_) => spec_lut(t@) is None,
        },
{
    let (ioline, rest1) = split_line(t);
    let mut io = split_char(ioline, ' ');
    proof {
        lemma_spec_split_len(ioline@, ' ');
    }
    let output = match io.pop() {
        Some(s) => s,
        None => {
            proof {
                assert(false);
            }
            String::new()
        },
    };
    let ghost inputs0 = spec_split(ioline@, ' ').drop_last();
    proof {
        assert(io.deep_view() =~= inputs0);
    }
    let n1 = rest1.unicode_len();
    let ti = find_char(rest1, '.');
    proof {
        lemma_spec_find(rest1@, '.');
    }
    let ttext = rest1.substring_char(0, ti);
    let rest2 = rest1.substring_char(ti, n1);
    let rows = match lut_table_parser(ttext) {
        Ok(v) => v,
        Err(e) => {
            return Err(e);
        },
    };
    let inputs = elide_inputs_exec(&io);
    let mut table: Vec<Vec<u8>> = Vec::new();
    let mut i: usize = 0;
    let ghost frows = rows.deep_view();
    while i < rows.len()
        invariant
            0 <= i <= rows.len(),
            frows == rows.deep_view(),
            io.deep_view() == inputs0,
            table.deep_view() =~~= elide_table(frows, inputs0).take(i as int),
        decreases rows.len() - i,
    {
        let ghost prev = table.deep_view();
        let er = elide_row_exec(&rows[i], &io);
        table.push(er);
        proof {
            assert(frows[i as int] == rows@[i as int]@);
            assert(table.deep_view() =~~= prev.push(er@));
            assert(table.deep_view() =~~= elide_table(frows, inputs0).take(i as int + 1));
        }
        i = i + 1;
    }
    proof {
        assert(elide_table(frows, inputs0).take(rows.len() as int) =~= elide_table(
            frows,
            inputs0,
        ));
    }
    Ok((ParsedPrimitive::Lut { inputs, output, table }, rest2))
}

} // verus!
