//! Lexicographic order on keys, and a verified three-way string comparison.

use vstd::prelude::*;
use vstd::string::StrSliceExecFns;

verus! {

/// Strict lexicographic order on character sequences, by code point: a
/// proper prefix comes before its extensions, and at the first differing
/// position the smaller code point decides.
pub open spec fn seq_lt(a: Seq<char>, b: Seq<char>) -> bool
    decreases a.len(),
{
    if b.len() == 0 {
        false
    } else if a.len() == 0 {
        true
    } else if (a[0] as u32) < (b[0] as u32) {
        true
    } else if a[0] == b[0] {
        seq_lt(a.drop_first(), b.drop_first())
    } else {
        false
    }
}

/// The order is irreflexive: no sequence comes before itself.
pub proof fn lemma_seq_lt_irrefl(a: Seq<char>)
    ensures
        !seq_lt(a, a),
    decreases a.len(),
{
    if a.len() > 0 {
        lemma_seq_lt_irrefl(a.drop_first());
    }
}

/// The order is transitive.
pub proof fn lemma_seq_lt_trans(a: Seq<char>, b: Seq<char>, c: Seq<char>)
    requires
        seq_lt(a, b),
        seq_lt(b, c),
    ensures
        seq_lt(a, c),
    decreases a.len(),
{
    if a.len() > 0 && b.len() > 0 && c.len() > 0 {
        if a[0] == b[0] && b[0] == c[0] {
            lemma_seq_lt_trans(a.drop_first(), b.drop_first(), c.drop_first());
        }
    }
}

/// Equal prefixes do not decide the order: comparing from position `i`
/// onward gives the same answer as comparing whole, as long as the first
/// `i` characters agree.
pub proof fn lemma_seq_lt_skip(a: Seq<char>, b: Seq<char>, i: int)
    requires
        0 <= i <= a.len(),
        i <= b.len(),
        forall|j: int| 0 <= j < i ==> a[j] == b[j],
    ensures
        seq_lt(a, b) <==> seq_lt(a.skip(i), b.skip(i)),
    decreases i,
{
    if i == 0 {
        assert(a.skip(0) =~= a);
        assert(b.skip(0) =~= b);
    } else {
        assert(a[0] == b[0]);
        assert forall|j: int| 0 <= j < i - 1 implies a.drop_first()[j] == b.drop_first()[j] by {
            assert(a[j + 1] == b[j + 1]);
        }
        lemma_seq_lt_skip(a.drop_first(), b.drop_first(), i - 1);
        assert(a.drop_first().skip(i - 1) =~= a.skip(i));
        assert(b.drop_first().skip(i - 1) =~= b.skip(i));
    }
}

/// The outcome of a three-way key comparison.
#[derive(Clone, Copy, Debug, PartialEq, Eq, Structural)]
pub enum KeyOrder {
    Less,
    Equal,
    Greater,
}

/// Three-way comparison of two strings in lexicographic code-point order.
pub fn compare_keys(a: &str, b: &str) -> (r: KeyOrder)
    ensures
        match r {
            KeyOrder::Less => seq_lt(a@, b@),
            KeyOrder::Equal => a@ == b@,
            KeyOrder::Greater => seq_lt(b@, a@),
        },
{
    let alen = a.unicode_len();
    let blen = b.unicode_len();
    let n = if alen < blen { alen } else { blen };
    let mut i: usize = 0;
    while i < n
        invariant
            i <= n,
            n == if alen < blen { alen } else { blen },
            alen == a@.len(),
            blen == b@.len(),
            forall|j: int| 0 <= j < i ==> a@[j] == b@[j],
        decreases n - i,
    {
        let ca = a.get_char(i);
        let cb = b.get_char(i);
        if (ca as u32) < (cb as u32) {
            proof {
                lemma_seq_lt_skip(a@, b@, i as int);
                assert(a@.skip(i as int)[0] == ca);
                assert(b@.skip(i as int)[0] == cb);
                assert(seq_lt(a@.skip(i as int), b@.skip(i as int)));
            }
            return KeyOrder::Less;
        }
        if (cb as u32) < (ca as u32) {
            proof {
                lemma_seq_lt_skip(b@, a@, i as int);
                assert(b@.skip(i as int)[0] == cb);
                assert(a@.skip(i as int)[0] == ca);
                assert(seq_lt(b@.skip(i as int), a@.skip(i as int)));
            }
            return KeyOrder::Greater;
        }
        i = i + 1;
    }
    if alen < blen {
        proof {
            lemma_seq_lt_skip(a@, b@, n as int);
            assert(a@.skip(n as int).len() == 0);
            assert(b@.skip(n as int).len() > 0);
            assert(seq_lt(a@.skip(n as int), b@.skip(n as int)));
        }
        KeyOrder::Less
    } else if blen < alen {
        proof {
            lemma_seq_lt_skip(b@, a@, n as int);
            assert(b@.skip(n as int).len() == 0);
            assert(a@.skip(n as int).len() > 0);
            assert(seq_lt(b@.skip(n as int), a@.skip(n as int)));
        }
        KeyOrder::Greater
    } else {
        proof {
            assert(a@ =~= b@);
        }
        KeyOrder::Equal
    }
}

} // verus!
