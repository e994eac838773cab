//! Laws relating the store's operations, stated over the same maps and
//! line sequences that the operations' contracts use.

use vstd::prelude::*;
use crate::codec::parse_line_spec;
use crate::store::load_lines_spec;

verus! {

/// Put overwrite: a later put of the same key wins, so putting twice leaves
/// the index as one put of the later value, which a lookup then returns.
pub proof fn lemma_put_overwrite(
    m: Map<Seq<char>, Seq<char>>,
    k: Seq<char>,
    v1: Seq<char>,
    v2: Seq<char>,
)
    ensures
        m.insert(k, v1).insert(k, v2) == m.insert(k, v2),
        m.insert(k, v2).contains_key(k),
        m.insert(k, v2)[k] == v2,
{
    assert(m.insert(k, v1).insert(k, v2) =~= m.insert(k, v2));
}

/// Remove then get: after removing a key a lookup returns nothing, whether
/// or not the key was present before.
pub proof fn lemma_remove_then_get(m: Map<Seq<char>, Seq<char>>, k: Seq<char>)
    ensures
        !m.remove(k).contains_key(k),
{
}

/// Later occurrences win on load: when the last well-formed line bearing a
/// key stands at position `j`, loading gives that line's value for the key.
pub proof fn lemma_load_last_wins(ls: Seq<Seq<char>>, j: int, k: Seq<char>, v: Seq<char>)
    requires
        0 <= j < ls.len(),
        parse_line_spec(ls[j]) == Some((k, v)),
        forall|l: int|
            j < l < ls.len() ==> match parse_line_spec(#[trigger] ls[l]) {
                Some(kv) => kv.0 != k,
                None => true,
            },
    ensures
        load_lines_spec(ls).contains_key(k),
        load_lines_spec(ls)[k] == v,
    decreases ls.len(),
{
    if j == ls.len() - 1 {
    } else {
        assert forall|l: int|
            j < l < ls.drop_last().len() implies match parse_line_spec(
            #[trigger] ls.drop_last()[l],
        ) {
            Some(kv) => kv.0 != k,
            None => true,
        } by {
            assert(ls.drop_last()[l] == ls[l]);
        }
        assert(ls.drop_last()[j] == ls[j]);
        lemma_load_last_wins(ls.drop_last(), j, k, v);
        match parse_line_spec(ls.last()) {
            Some(kv) => {
                assert(kv.0 != k);
            },
            None => {},
        }
    }
}

/// Malformed lines vanish: loading with a malformed line at position `i`
/// gives exactly the map that loading without that line gives.
pub proof fn lemma_load_skips_malformed(ls: Seq<Seq<char>>, i: int)
    requires
        0 <= i < ls.len(),
        parse_line_spec(ls[i]) is None,
    ensures
        load_lines_spec(ls.remove(i)) == load_lines_spec(ls),
    decreases ls.len(),
{
    if i == ls.len() - 1 {
        assert(ls.remove(i) =~= ls.drop_last());
    } else {
        assert(ls.drop_last()[i] == ls[i]);
        lemma_load_skips_malformed(ls.drop_last(), i);
        assert(ls.remove(i).drop_last() =~= ls.drop_last().remove(i));
        assert(ls.remove(i).last() == ls.last());
    }
}

} // verus!
