//! The lexicographic order of strings by the code points of their characters.

use vstd::prelude::*;
use vstd::string::*;
use vstd::std_specs::iter::IteratorSpec;

verus! {

/// `a` and `b` agree on their first `k` characters, and at position `k`
/// either `a` has ended and `b` has not, or `a` holds the smaller character.
pub open spec fn less_at(a: Seq<char>, b: Seq<char>, k: int) -> bool {
    &&& 0 <= k <= a.len()
    &&& k < b.len()
    &&& forall|i: int| 0 <= i < k ==> a[i] == b[i]
    &&& k < a.len() ==> a[k] < b[k]
}

/// `a` comes strictly before `b`: `a` is a proper prefix of `b`, or at the
/// first position where the two differ `a` holds the smaller character.
pub open spec fn lex_less(a: Seq<char>, b: Seq<char>) -> bool {
    exists|k: int| less_at(a, b, k)
}

/// `a` comes before `b` or equals it.
pub open spec fn lex_le(a: Seq<char>, b: Seq<char>) -> bool {
    a == b || lex_less(a, b)
}

/// No string comes before itself.
pub proof fn lemma_lex_irreflexive(a: Seq<char>)
    ensures
        !lex_less(a, a),
{
}

/// The order is transitive.
pub proof fn lemma_lex_transitive(a: Seq<char>, b: Seq<char>, c: Seq<char>)
    requires
        lex_less(a, b),
        lex_less(b, c),
    ensures
        lex_less(a, c),
{
    let i = choose|k: int| less_at(a, b, k);
    let j = choose|k: int| less_at(b, c, k);
    if i <= j {
        assert(less_at(a, c, i));
    } else {
        assert(less_at(a, c, j));
    }
}

/// Of two strings that agree on their first `k` characters, one comes
/// before the other unless they are equal.
proof fn lemma_lex_total_from(a: Seq<char>, b: Seq<char>, k: int)
    requires
        0 <= k <= a.len(),
        k <= b.len(),
        forall|i: int| 0 <= i < k ==> a[i] == b[i],
    ensures
        lex_less(a, b) || a == b || lex_less(b, a),
    decreases a.len() - k,
{
    if k == a.len() {
        if k == b.len() {
            assert(a =~= b);
        } else {
            assert(less_at(a, b, k));
        }
    } else if k == b.len() {
        assert(less_at(b, a, k));
    } else if a[k] == b[k] {
        lemma_lex_total_from(a, b, k + 1);
    } else if a[k] < b[k] {
        assert(less_at(a, b, k));
    } else {
        assert(less_at(b, a, k));
    }
}

/// Any two strings are equal or one comes before the other.
pub proof fn lemma_lex_total(a: Seq<char>, b: Seq<char>)
    ensures
        lex_less(a, b) || a == b || lex_less(b, a),
{
    lemma_lex_total_from(a, b, 0);
}

/// Two strings do not come before each other.
pub proof fn lemma_lex_asymmetric(a: Seq<char>, b: Seq<char>)
    requires
        lex_less(a, b),
    ensures
        !lex_less(b, a),
{
    if lex_less(b, a) {
        lemma_lex_transitive(a, b, a);
        lemma_lex_irreflexive(a);
    }
}

/// How one string stands to another in the lexicographic order.
#[derive(Clone, Copy, Debug, PartialEq, Eq, Structural)]
pub enum LexOrder {
    Less,
    Equal,
    Greater,
}

/// Compares `a` with `b` character by character.
pub fn lex_order(a: &str, b: &str) -> (o: LexOrder)
    ensures
        o == LexOrder::Less <==> lex_less(a@, b@),
        o == LexOrder::Equal <==> a@ == b@,
        o == LexOrder::Greater <==> lex_less(b@, a@),
{
    let mut rest_a = a.chars();
    let mut rest_b = b.chars();
    let ghost mut k: int = 0;
    loop
        invariant
            0 <= k <= a@.len(),
            k <= b@.len(),
            rest_a.remaining() == a@.skip(k),
            rest_b.remaining() == b@.skip(k),
            forall|i: int| 0 <= i < k ==> a@[i] == b@[i],
        decreases a@.len() - k,
    {
        let x = rest_a.next();
        let y = rest_b.next();
        match (x, y) {
            (None, None) => {
                assert(a@ =~= b@);
                return LexOrder::Equal;
            },
            (None, Some(_)) => {
                assert(less_at(a@, b@, k));
                return LexOrder::Less;
            },
            (Some(_), None) => {
                assert(less_at(b@, a@, k));
                return LexOrder::Greater;
            },
            (Some(c), Some(d)) => {
                if c < d {
                    assert(less_at(a@, b@, k));
                    return LexOrder::Less;
                } else if d < c {
                    assert(less_at(b@, a@, k));
                    return LexOrder::Greater;
                }
                proof {
                    k = k + 1;
                }
            },
        }
    }
}

} // verus!
