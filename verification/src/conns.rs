//! The ordered formal-to-actual connection mapping of a subcircuit
//! instantiation, kept in an `indexmap::IndexMap` so that insertion
//! order is preserved.  The map is opaque to the verifier; its contents
//! are named by `conns_seq` and the two operations the parser uses are
//! specified against that name.

use vstd::prelude::*;
use indexmap::IndexMap;

verus! {

#[verifier::external_type_specification]
#[verifier::external_body]
#[verifier::reject_recursive_types(K)]
#[verifier::reject_recursive_types(V)]
#[verifier::reject_recursive_types(S)]
pub struct ExIndexMap<K, V, S>(IndexMap<K, V, S>);

/// Relies on `indexmap::IndexMap`'s `Clone`; nothing is assumed of the
/// copy.  It is here so that cloning an AST node that carries a
/// connection map is accepted.
pub assume_specification<K: Clone, V: Clone, S: Clone>[ <IndexMap<K, V, S> as Clone>::clone ](
    m: &IndexMap<K, V, S>,
) -> IndexMap<K, V, S>;

/// The key-value pairs that a connection map holds, in its order.
pub uninterp spec fn conns_seq(m: IndexMap<String, String>) -> Seq<(Seq<char>, Seq<char>)>;

/// Index of the first pair whose key is `k`; `s.len()` when no pair has
/// that key.
pub open spec fn spec_key_index(s: Seq<(Seq<char>, Seq<char>)>, k: Seq<char>) -> int
    decreases s.len(),
{
    if s.len() == 0 {
        0
    } else if s[0].0 == k {
        0
    } else {
        1 + spec_key_index(s.skip(1), k)
    }
}

/// What inserting `(k, v)` does to the held pairs: a fresh key is
/// appended last; an existing key keeps its place and has its value
/// replaced.
pub open spec fn spec_conns_insert(
    s: Seq<(Seq<char>, Seq<char>)>,
    k: Seq<char>,
    v: Seq<char>,
) -> Seq<(Seq<char>, Seq<char>)> {
    let i = spec_key_index(s, k);
    if i == s.len() {
        s.push((k, v))
    } else {
        s.update(i, (k, v))
    }
}

/// `spec_key_index` lies in `[0, s.len()]`, no earlier pair has key `k`,
/// and it points at a pair with key `k` unless it is `s.len()`.
pub proof fn lemma_spec_key_index(s: Seq<(Seq<char>, Seq<char>)>, k: Seq<char>)
    ensures
        0 <= spec_key_index(s, k) <= s.len(),
        forall|j: int| 0 <= j < spec_key_index(s, k) ==> s[j].0 != k,
        spec_key_index(s, k) < s.len() ==> s[spec_key_index(s, k)].0 == k,
    decreases s.len(),
{
    if s.len() == 0 {
    } else if s[0].0 == k {
    } else {
        lemma_spec_key_index(s.skip(1), k);
        let f = spec_key_index(s, k);
        assert forall|j: int| 0 <= j < f implies s[j].0 != k by {
            if j > 0 {
                assert(s.skip(1)[j - 1] == s[j]);
            }
        }
        if f < s.len() {
            assert(s.skip(1)[f - 1] == s[f]);
        }
    }
}

/// Relies on `indexmap::IndexMap::new`: a new map holds no pairs.
#[verifier::external_body]
pub(crate) fn conns_new() -> (r: IndexMap<String, String>)
    ensures
        conns_seq(r) == Seq::<(Seq<char>, Seq<char>)>::empty(),
{
    IndexMap::new()
}

/// Relies on `indexmap::IndexMap::insert`: if an equivalent key already
/// exists it keeps its place in the order and its value is updated;
/// otherwise the new pair is inserted last in order.
#[verifier::external_body]
pub(crate) fn conns_insert(m: &mut IndexMap<String, String>, k: String, v: String)
    ensures
        conns_seq(*final(m)) == spec_conns_insert(conns_seq(*old(m)), k@, v@),
{
    m.insert(k, v);
}

} // verus!
