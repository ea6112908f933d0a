//! The module driver and the top-level driver: one `.model ... .end`
//! block parses to one module node, and a whole netlist text parses to
//! the ordered sequence of its modules.  The contracts pin every
//! result down as a function of the text alone, so parsing the same
//! text twice always yields the same tree.

use vstd::prelude::*;
use vstd::string::*;
use crate::text::{
    spec_find, spec_find_sub, spec_split, spec_line, spec_has_prefix, spec_ws_len,
    lemma_spec_find, lemma_spec_find_sub, lemma_spec_ws_len, lemma_spec_line_len,
    lemma_spec_split_len, find_char, find_sub, split_char, split_line, str_eq, has_prefix,
    skip_ws,
};
use crate::primitives::{ParsedPrimitive, PrimV, prim_view, prims_view};
use crate::stmt::{
    spec_lut, spec_gate, spec_latch, spec_subckt, lemma_spec_lut_rest, lut_body_parser,
    gate_parser, latch_parser, subckt_parser,
};

verus! {

/// The keyword that opens a module block, with its trailing space.
pub open spec fn kw_model() -> Seq<char> {
    seq!['.', 'm', 'o', 'd', 'e', 'l', ' ']
}

/// The marker that closes a module body: `.end` on a line of its own.
pub open spec fn kw_end() -> Seq<char> {
    seq!['\n', '.', 'e', 'n', 'd', '\n']
}

/// The start of the next module block, sought after a body ends.
pub open spec fn kw_nl_model() -> Seq<char> {
    seq!['\n', '.', 'm', 'o', 'd', 'e', 'l']
}

/// The keyword of a lookup-table statement.
pub open spec fn kw_names() -> Seq<char> {
    seq!['.', 'n', 'a', 'm', 'e', 's']
}

/// The keyword of a subcircuit statement.
pub open spec fn kw_subckt() -> Seq<char> {
    seq!['.', 's', 'u', 'b', 'c', 'k', 't']
}

/// The keyword of a gate statement.
pub open spec fn kw_gate() -> Seq<char> {
    seq!['.', 'g', 'a', 't', 'e']
}

/// The keyword of a latch statement.
pub open spec fn kw_latch() -> Seq<char> {
    seq!['.', 'l', 'a', 't', 'c', 'h']
}

/// The string literals used by the executable parser spell the
/// keywords of the grammar.
proof fn lemma_keywords()
    ensures
        ".model "@ == kw_model(),
        "\n.end\n"@ == kw_end(),
        "\n.model"@ == kw_nl_model(),
        ".names"@ == kw_names(),
        ".subckt"@ == kw_subckt(),
        ".gate"@ == kw_gate(),
        ".latch"@ == kw_latch(),
{
    reveal_strlit(".model ");
    reveal_strlit("\n.end\n");
    reveal_strlit("\n.model");
    reveal_strlit(".names");
    reveal_strlit(".subckt");
    reveal_strlit(".gate");
    reveal_strlit(".latch");
    assert(".model "@ =~= kw_model());
    assert("\n.end\n"@ =~= kw_end());
    assert("\n.model"@ =~= kw_nl_model());
    assert(".names"@ =~= kw_names());
    assert(".subckt"@ =~= kw_subckt());
    assert(".gate"@ =~= kw_gate());
    assert(".latch"@ =~= kw_latch());
}

/// The statement nodes that a module body decodes to, or `None` on a
/// fatal error.  The body is read by peeking the token before the next
/// space: a recognized keyword dispatches to its statement parser, an
/// unrecognized one skips to the text after the token and its trailing
/// whitespace; a body without any space left (but more than one
/// character) is a fatal error.
pub open spec fn spec_body(b: Seq<char>) -> Option<Seq<PrimV>>
    decreases b.len(),
{
    if b.len() <= 1 {
        Some(Seq::<PrimV>::empty())
    } else {
        let sp = spec_find(b, ' ');
        if sp == b.len() {
            None
        } else {
            let tag = b.take(sp);
            let rest0 = b.skip(sp);
            let rest = rest0.skip(spec_ws_len(rest0));
            proof {
                lemma_spec_find(b, ' ');
                lemma_spec_ws_len(rest0);
            }
            if tag == kw_names() {
                proof {
                    lemma_spec_lut_rest(rest);
                }
                match spec_lut(rest) {
                    None => None,
                    Some(p) => match spec_body(p.1) {
                        None => None,
                        Some(es) => Some(seq![p.0] + es),
                    },
                }
            } else if tag == kw_subckt() {
                proof {
                    lemma_spec_line_len(rest);
                }
                match spec_subckt(spec_line(rest).0) {
                    None => None,
                    Some(node) => match spec_body(spec_line(rest).1) {
                        None => None,
                        Some(es) => Some(seq![node] + es),
                    },
                }
            } else if tag == kw_gate() {
                proof {
                    lemma_spec_line_len(rest);
                }
                match spec_body(spec_line(rest).1) {
                    None => None,
                    Some(es) => Some(seq![spec_gate(spec_line(rest).0)] + es),
                }
            } else if tag == kw_latch() {
                proof {
                    lemma_spec_line_len(rest);
                }
                match spec_latch(spec_line(rest).0) {
                    None => None,
                    Some(node) => match spec_body(spec_line(rest).1) {
                        None => None,
                        Some(es) => Some(seq![node] + es),
                    },
                }
            } else {
                spec_body(rest)
            }
        }
    }
}

/// The module node that a `.model ... .end` block decodes to, with the
/// text that remains after the block, or `None` on a fatal error: a
/// missing `.model ` prefix, an unterminated name line, a missing
/// `.end` marker, a body too short to hold its port lines, or a failing
/// statement.
pub open spec fn spec_module(t: Seq<char>) -> Option<(PrimV, Seq<char>)> {
    if !spec_has_prefix(t, kw_model()) {
        None
    } else {
        let t1 = t.skip(7);
        let i = spec_find(t1, '\n');
        if i == t1.len() {
            None
        } else {
            let name = t1.take(i);
            let t2 = t1.skip(i + 1);
            let j = spec_find_sub(t2, kw_end());
            if j == t2.len() {
                None
            } else {
                let body = t2.take(j);
                let after = t2.skip(j + 1);
                let k1 = spec_find(body, '\n');
                if k1 == body.len() {
                    None
                } else {
                    let iline = body.take(k1);
                    let b1 = body.skip(k1 + 1);
                    let k2 = spec_find(b1, '\n');
                    if k2 == b1.len() {
                        None
                    } else {
                        let oline = b1.take(k2);
                        let b2 = b1.skip(k2 + 1);
                        let inputs = spec_split(iline, ' ').skip(1);
                        let outputs = spec_split(oline, ' ').skip(1);
                        match spec_body(b2) {
                            None => None,
                            Some(elems) => {
                                let m = if after.len() > 6 {
                                    spec_find(after, '.')
                                } else {
                                    spec_find(after, '\n')
                                };
                                if m == after.len() {
                                    None
                                } else {
                                    Some(
                                        (
                                            PrimV::ModuleV {
                                                name: name,
                                                inputs: inputs,
                                                outputs: outputs,
                                                elems: elems,
                                            },
                                            after.skip(m),
                                        ),
                                    )
                                }
                            },
                        }
                    }
                }
            }
        }
    }
}

/// A module block always consumes at least part of the text: what
/// remains after it is strictly shorter.
pub proof fn lemma_spec_module_rest(t: Seq<char>)
    ensures
        match spec_module(t) {
            Some(p) => p.1.len() < t.len(),
            None => true,
        },
{
    if spec_has_prefix(t, kw_model()) {
        let t1 = t.skip(7);
        lemma_spec_find(t1, '\n');
        let i = spec_find(t1, '\n');
        if i < t1.len() {
            let t2 = t1.skip(i + 1);
            lemma_spec_find_sub(t2, kw_end());
            let j = spec_find_sub(t2, kw_end());
            if j < t2.len() {
                let after = t2.skip(j + 1);
                lemma_spec_find(after, '.');
                lemma_spec_find(after, '\n');
            }
        }
    }
}

/// The module nodes that successive blocks decode to, until fewer than
/// five characters remain.  After each block the text is advanced to
/// the next `.model` marker (consuming the newline before it), or to
/// the end of input when none follows.
pub open spec fn spec_parse_loop(t: Seq<char>) -> Option<Seq<PrimV>>
    decreases t.len(),
{
    if t.len() <= 4 {
        Some(Seq::<PrimV>::empty())
    } else {
        match spec_module(t) {
            None => None,
            Some(p) => {
                let rest = p.1;
                let k = spec_find_sub(rest, kw_nl_model());
                let rest2 = if k == rest.len() {
                    Seq::<char>::empty()
                } else {
                    rest.skip(k + 1)
                };
                proof {
                    lemma_spec_module_rest(t);
                    lemma_spec_find_sub(rest, kw_nl_model());
                }
                match spec_parse_loop(rest2) {
                    None => None,
                    Some(ms) => Some(seq![p.0] + ms),
                }
            },
        }
    }
}

/// The module sequence that a whole netlist text decodes to, or `None`
/// on a fatal error.  An optional leading `#` comment line is
/// stripped, then the text is advanced to the first `.`; a text
/// without one is a fatal error.
pub open spec fn spec_parse_blif(input: Seq<char>) -> Option<Seq<PrimV>> {
    let t0 = if input.len() > 0 && input[0] == '#' {
        spec_line(input).1
    } else {
        input
    };
    let d = spec_find(t0, '.');
    if d == t0.len() {
        None
    } else {
        spec_parse_loop(t0.skip(d))
    }
}

/// Parsing is deterministic: the decoding of a netlist text is a
/// function of its characters alone, so two successful parses of the
/// same text yield the same module sequence.
pub proof fn lemma_parse_deterministic(s: Seq<char>, v1: Seq<PrimV>, v2: Seq<PrimV>)
    requires
        spec_parse_blif(s) == Some(v1),
        spec_parse_blif(s) == Some(v2),
    ensures
        v1 == v2,
{
}

/// The port tokens of a port-list line: every token after the leading
/// keyword token.
fn drop_first(v: &Vec<String>) -> (r: Vec<String>)
    requires
        v@.len() >= 1,
    ensures
        r.deep_view() == v.deep_view().skip(1),
{
    let mut out: Vec<String> = Vec::new();
    let mut i: usize = 1;
    while i < v.len()
        invariant
            1 <= i <= v.len() || v.len() < 1,
            out.deep_view() =~= v.deep_view().subrange(1, i as int),
        decreases v.len() - i,
    {
        let ghost prev = out.deep_view();
        out.push(v[i].clone());
        proof {
            assert(out.deep_view() =~= prev.push(v.deep_view()[i as int]));
            assert(out.deep_view() =~= v.deep_view().subrange(1, i as int + 1));
        }
        i = i + 1;
    }
    proof {
        assert(v.deep_view().subrange(1, v.len() as int) =~= v.deep_view().skip(1));
    }
    out
}

/// Parse the statements of one module body, dispatching on each
/// statement's leading keyword; unrecognized keywords are skipped
/// without error.
pub fn module_elems_parser(b: &str) -> (r: Result<Vec<ParsedPrimitive>, String>)
    ensures
        match r {
            Ok(v) => spec_body(b@) == Some(prims_view(v@)),
            Err(_) => spec_body(b@) is None,
        },
{
    proof {
        lemma_keywords();
    }
    let mut elems: Vec<ParsedPrimitive> = Vec::new();
    let mut rest: &str = b;
    loop
        invariant
            match spec_body(rest@) {
                Some(es) => spec_body(b@) == Some(prims_view(elems@) + es),
                None => spec_body(b@) is None,
            },
        decreases rest@.len(),
    {
        proof {
            lemma_keywords();
        }
        let n = rest.unicode_len();
        if n <= 1 {
            proof {
                assert(prims_view(elems@) + Seq::<PrimV>::empty() =~= prims_view(elems@));
            }
            return Ok(elems);
        }
        let sp = find_char(rest, ' ');
        if sp == n {
            return Err(String::from_str("statement tag without a following token"));
        }
        proof {
            lemma_spec_find(rest@, ' ');
        }
        let tag = rest.substring_char(0, sp);
        let rest0 = rest.substring_char(sp, n);
        let after_tag = skip_ws(rest0);
        proof {
            lemma_spec_ws_len(rest0@);
            assert(rest0@[0] == rest@[sp as int]);
        }
        let ghost prev_elems = elems@;
        if str_eq(tag, ".names") {
            proof {
                lemma_spec_lut_rest(after_tag@);
            }
            match lut_body_parser(after_tag) {
                Ok(p) => {
                    elems.push(p.0);
                    rest = p.1;
                },
                Err(e) => {
                    return Err(e);
                },
            }
        } else if str_eq(tag, ".subckt") {
            proof {
                lemma_spec_line_len(after_tag@);
            }
            let (line, rest2) = split_line(after_tag);
            match subckt_parser(line) {
                Ok(node) => {
                    elems.push(node);
                    rest = rest2;
                },
                Err(e) => {
                    return Err(e);
                },
            }
        } else if str_eq(tag, ".gate") {
            proof {
                lemma_spec_line_len(after_tag@);
            }
            let (line, rest2) = split_line(after_tag);
            let node = gate_parser(line);
            elems.push(node);
            rest = rest2;
        } else if str_eq(tag, ".latch") {
            proof {
                lemma_spec_line_len(after_tag@);
            }
            let (line, rest2) = split_line(after_tag);
            match latch_parser(line) {
                Ok(node) => {
                    elems.push(node);
                    rest = rest2;
                },
                Err(e) => {
                    return Err(e);
                },
            }
        } else {
            rest = after_tag;
        }
        proof {
            if elems@.len() > prev_elems.len() {
                let node = elems@[prev_elems.len() as int];
                assert(prims_view(elems@) =~= prims_view(prev_elems).push(prim_view(node)));
                if spec_body(rest@) is Some {
                    let es = spec_body(rest@)->0;
                    assert(prims_view(prev_elems) + (seq![prim_view(node)] + es) =~= prims_view(
                        elems@,
                    ) + es);
                }
            }
        }
    }
}

/// Parse one `.model ... .end` block: the model name line, the input
/// and output port lines (their leading keyword tokens discarded),
/// then the statements of the body; finally advance to the text after
/// the block.
pub fn module_body_parser<'a>(t: &'a str) -> (r: Result<(ParsedPrimitive, &'a str), String>)
    ensures
        match r {
            Ok(p) => spec_module(t@) == Some((prim_view(p.0), p.1@)),
            Err(_) => spec_module(t@) is None,
        },
{
    proof {
        lemma_keywords();
    }
    if !has_prefix(t, ".model ") {
        return Err(String::from_str("expected a model header"));
    }
    let n = t.unicode_len();
    let t1 = t.substring_char(7, n);
    let n1 = t1.unicode_len();
    let i = find_char(t1, '\n');
    if i == n1 {
        return Err(String::from_str("unterminated model name line"));
    }
    proof {
        lemma_spec_find(t1@, '\n');
    }
    let name = String::from_str(t1.substring_char(0, i));
    let t2 = t1.substring_char(i + 1, n1);
    let n2 = t2.unicode_len();
    let j = find_sub(t2, "\n.end\n");
    if j == n2 {
        return Err(String::from_str("module body without an end marker"));
    }
    proof {
        lemma_spec_find_sub(t2@, kw_end());
    }
    let body = t2.substring_char(0, j);
    let after = t2.substring_char(j + 1, n2);
    let bn = body.unicode_len();
    let k1 = find_char(body, '\n');
    if k1 == bn {
        return Err(String::from_str("module body without port lines"));
    }
    proof {
        lemma_spec_find(body@, '\n');
    }
    let iline = body.substring_char(0, k1);
    let b1 = body.substring_char(k1 + 1, bn);
    let bn1 = b1.unicode_len();
    let k2 = find_char(b1, '\n');
    if k2 == bn1 {
        return Err(String::from_str("module body without an output port line"));
    }
    proof {
        lemma_spec_find(b1@, '\n');
    }
    let oline = b1.substring_char(0, k2);
    let b2 = b1.substring_char(k2 + 1, bn1);
    let itoks = split_char(iline, ' ');
    let otoks = split_char(oline, ' ');
    proof {
        lemma_spec_split_len(iline@, ' ');
        lemma_spec_split_len(oline@, ' ');
    }
    let inputs = drop_first(&itoks);
    let outputs = drop_first(&otoks);
    let elems = match module_elems_parser(b2) {
        Ok(v) => v,
        Err(e) => {
            return Err(e);
        },
    };
    let an = after.unicode_len();
    let m: usize = if an > 6 {
        find_char(after, '.')
    } else {
        find_char(after, '\n')
    };
    if m == an {
        return Err(String::from_str("text after a module body has no statement marker"));
    }
    proof {
        lemma_spec_find(after@, '.');
        lemma_spec_find(after@, '\n');
    }
    let rest = after.substring_char(m, an);
    let node = ParsedPrimitive::Module { name, inputs, outputs, elems };
    proof {
        assert(prim_view(node)->ModuleV_elems =~= prims_view(elems@));
    }
    Ok((node, rest))
}

/// Parse every module block of a netlist text, in order: strip an
/// optional leading `#` comment line, advance to the first `.`, and
/// fold the module driver over the text until fewer than five
/// characters remain.
pub fn parse_modules_from_blif_str(input: &str) -> (r: Result<Vec<ParsedPrimitive>, String>)
    ensures
        match r {
            Ok(v) => spec_parse_blif(input@) == Some(prims_view(v@)),
            Err(_) => spec_parse_blif(input@) is None,
        },
{
    proof {
        lemma_keywords();
    }
    let t0: &str = if input.unicode_len() > 0 && input.get_char(0) == '#' {
        let lr = split_line(input);
        lr.1
    } else {
        input
    };
    let n0 = t0.unicode_len();
    let d = find_char(t0, '.');
    if d == n0 {
        return Err(String::from_str("no statement marker in input"));
    }
    proof {
        lemma_spec_find(t0@, '.');
    }
    let mut rest: &str = t0.substring_char(d, n0);
    let ghost start = t0@.skip(spec_find(t0@, '.'));
    let mut modules: Vec<ParsedPrimitive> = Vec::new();
    loop
        invariant
            start == t0@.skip(spec_find(t0@, '.')),
            spec_parse_blif(input@) == spec_parse_loop(start),
            match spec_parse_loop(rest@) {
                Some(ms) => spec_parse_loop(start) == Some(prims_view(modules@) + ms),
                None => spec_parse_loop(start) is None,
            },
        decreases rest@.len(),
    {
        proof {
            lemma_keywords();
        }
        let n = rest.unicode_len();
        if n <= 4 {
            proof {
                assert(prims_view(modules@) + Seq::<PrimV>::empty() =~= prims_view(modules@));
            }
            return Ok(modules);
        }
        let ghost prev_rest = rest@;
        let ghost prev_modules = modules@;
        match module_body_parser(rest) {
            Err(e) => {
                return Err(e);
            },
            Ok(p) => {
                let (m, rest1) = p;
                let n1 = rest1.unicode_len();
                let k = find_sub(rest1, "\n.model");
                let rest2: &str = if k == n1 {
                    rest1.substring_char(n1, n1)
                } else {
                    proof {
                        lemma_spec_find_sub(rest1@, kw_nl_model());
                    }
                    rest1.substring_char(k + 1, n1)
                };
                proof {
                    lemma_spec_module_rest(prev_rest);
                    assert(rest2@ =~= (if k as int == rest1@.len() {
                        Seq::<char>::empty()
                    } else {
                        rest1@.skip(k as int + 1)
                    }));
                }
                modules.push(m);
                rest = rest2;
                proof {
                    assert(prims_view(modules@) =~= prims_view(prev_modules).push(prim_view(m)));
                    if spec_parse_loop(rest@) is Some {
                        let ms = spec_parse_loop(rest@)->0;
                        assert(prims_view(prev_modules) + (seq![prim_view(m)] + ms) =~= prims_view(
                            modules@,
                        ) + ms);
                    }
                }
            },
        }
    }
}

/// Parse a whole netlist text into its ordered module sequence, or
/// report a descriptive grammar error; on failure no partial tree is
/// returned.
pub fn parse_blif(input: &str) -> (r: Result<Vec<ParsedPrimitive>, String>)
    ensures
        match r {
            Ok(v) => spec_parse_blif(input@) == Some(prims_view(v@)),
            Err(_) => spec_parse_blif(input@) is None,
        },
{
    match parse_modules_from_blif_str(input) {
        Ok(v) => Ok(v),
        Err(e) => Err(String::from_str("Error while parsing:\n").concat(e.as_str())),
    }
}

} // verus!
