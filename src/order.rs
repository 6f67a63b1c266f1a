//! Lexicographic order on sequences of integers: the order every arena keeps
//! its keys in.
use vstd::prelude::*;
use core::cmp::Ordering;

verus! {

/// `a` and `b` agree on their first `n` entries.
pub open spec fn agree_upto(a: Seq<int>, b: Seq<int>, n: int) -> bool {
    forall|j: int| 0 <= j < n ==> a[j] == b[j]
}

/// `a` sorts strictly before `b`, with `n` the first position where they part:
/// either `a` ends there while `b` goes on, or both go on and `a` is smaller.
pub open spec fn lex_lt_at(a: Seq<int>, b: Seq<int>, n: int) -> bool {
    &&& 0 <= n <= a.len()
    &&& n <= b.len()
    &&& agree_upto(a, b, n)
    &&& ((n == a.len() && n < b.len()) || (n < a.len() && n < b.len() && a[n] < b[n]))
}

/// Strict lexicographic order.
pub open spec fn lex_lt(a: Seq<int>, b: Seq<int>) -> bool {
    exists|n: int| lex_lt_at(a, b, n)
}

/// Three-way lexicographic comparison.
pub open spec fn lex_cmp(a: Seq<int>, b: Seq<int>) -> Ordering {
    if lex_lt(a, b) {
        Ordering::Less
    } else if a == b {
        Ordering::Equal
    } else {
        Ordering::Greater
    }
}

/// No sequence sorts before itself.
pub proof fn lemma_lex_irreflexive(a: Seq<int>)
    ensures
        !lex_lt(a, a),
{
}

/// The order is transitive.
pub proof fn lemma_lex_transitive(a: Seq<int>, b: Seq<int>, c: Seq<int>)
    requires
        lex_lt(a, b),
        lex_lt(b, c),
    ensures
        lex_lt(a, c),
{
    let i = choose|i: int| lex_lt_at(a, b, i);
    let j = choose|j: int| lex_lt_at(b, c, j);
    if i <= j {
        assert(lex_lt_at(a, c, i));
    } else {
        assert(lex_lt_at(a, c, j));
    }
}

proof fn lemma_lex_total_from(a: Seq<int>, b: Seq<int>, n: int)
    requires
        0 <= n <= a.len(),
        n <= b.len(),
        agree_upto(a, b, n),
    ensures
        lex_lt(a, b) || lex_lt(b, a) || a == b,
    decreases a.len() - n,
{
    if n == a.len() && n == b.len() {
        assert(a =~= b);
    } else if n == a.len() {
        assert(lex_lt_at(a, b, n));
    } else if n == b.len() {
        assert(lex_lt_at(b, a, n));
    } else if a[n] < b[n] {
        assert(lex_lt_at(a, b, n));
    } else if b[n] < a[n] {
        assert(lex_lt_at(b, a, n));
    } else {
        lemma_lex_total_from(a, b, n + 1);
    }
}

/// Any two sequences are equal or ordered one way.
pub proof fn lemma_lex_total(a: Seq<int>, b: Seq<int>)
    ensures
        lex_lt(a, b) || lex_lt(b, a) || a == b,
{
    lemma_lex_total_from(a, b, 0);
}

/// Lexicographic order on integer sequences is a strict total order:
/// irreflexive, asymmetric, transitive, and any two distinct sequences are
/// ordered one way or the other.
pub proof fn law_lex_strict_total_order(a: Seq<int>, b: Seq<int>, c: Seq<int>)
    ensures
        !lex_lt(a, a),
        lex_lt(a, b) ==> !lex_lt(b, a),
        lex_lt(a, b) && lex_lt(b, c) ==> lex_lt(a, c),
        a != b ==> (lex_lt(a, b) || lex_lt(b, a)),
        lex_cmp(a, b) == Ordering::Equal <==> a == b,
{
    lemma_lex_irreflexive(a);
    lemma_lex_irreflexive(b);
    if lex_lt(a, b) && lex_lt(b, a) {
        lemma_lex_transitive(a, b, a);
    }
    if lex_lt(a, b) && lex_lt(b, c) {
        lemma_lex_transitive(a, b, c);
    }
    lemma_lex_total(a, b);
}

/// Compares two sequences of 64-bit codes lexicographically.
pub fn compare_codes(a: &[u64], b: &[u64]) -> (r: Ordering)
    ensures
        r == lex_cmp(codes_of(a@), codes_of(b@)),
{
    let ghost sa = codes_of(a@);
    let ghost sb = codes_of(b@);
    let mut i: usize = 0;
    while i < a.len() && i < b.len() && a[i] == b[i]
        invariant
            i <= a@.len(),
            i <= b@.len(),
            sa == codes_of(a@),
            sb == codes_of(b@),
            agree_upto(sa, sb, i as int),
        decreases a@.len() - i,
    {
        i = i + 1;
    }
    proof {
        lemma_lex_irreflexive(sa);
    }
    if i < a.len() && i < b.len() {
        if a[i] < b[i] {
            assert(lex_lt_at(sa, sb, i as int));
            Ordering::Less
        } else {
            assert(lex_lt_at(sb, sa, i as int));
            proof {
                law_lex_strict_total_order(sa, sb, sa);
            }
            Ordering::Greater
        }
    } else if i < b.len() {
        assert(lex_lt_at(sa, sb, i as int));
        Ordering::Less
    } else if i < a.len() {
        assert(lex_lt_at(sb, sa, i as int));
        proof {
            law_lex_strict_total_order(sa, sb, sa);
        }
        Ordering::Greater
    } else {
        assert(sa =~= sb);
        Ordering::Equal
    }
}

/// The code points of a sequence of characters.
pub open spec fn char_codes(s: Seq<char>) -> Seq<int> {
    s.map_values(|c: char| c as int)
}

/// Distinct character sequences have distinct code point sequences.
pub proof fn lemma_char_codes_injective(a: Seq<char>, b: Seq<char>)
    requires
        char_codes(a) == char_codes(b),
    ensures
        a == b,
{
    assert(a.len() == char_codes(a).len());
    assert forall|i: int| 0 <= i < a.len() implies a[i] == b[i] by {
        assert(char_codes(a)[i] == char_codes(b)[i]);
        assert(char_codes(a)[i] == a[i] as int);
        assert(char_codes(b)[i] == b[i] as int);
    }
    assert(a =~= b);
}

/// Compares two character sequences by code point, lexicographically.
pub fn compare_chars(a: &[char], b: &[char]) -> (r: Ordering)
    ensures
        r == lex_cmp(char_codes(a@), char_codes(b@)),
{
    let ghost sa = char_codes(a@);
    let ghost sb = char_codes(b@);
    let mut i: usize = 0;
    while i < a.len() && i < b.len() && a[i] == b[i]
        invariant
            i <= a@.len(),
            i <= b@.len(),
            sa == char_codes(a@),
            sb == char_codes(b@),
            agree_upto(sa, sb, i as int),
        decreases a@.len() - i,
    {
        i = i + 1;
    }
    proof {
        lemma_lex_irreflexive(sa);
    }
    if i < a.len() && i < b.len() {
        if a[i] < b[i] {
            assert(lex_lt_at(sa, sb, i as int));
            Ordering::Less
        } else {
            assert(lex_lt_at(sb, sa, i as int));
            proof {
                law_lex_strict_total_order(sa, sb, sa);
            }
            Ordering::Greater
        }
    } else if i < b.len() {
        assert(lex_lt_at(sa, sb, i as int));
        Ordering::Less
    } else if i < a.len() {
        assert(lex_lt_at(sb, sa, i as int));
        proof {
            law_lex_strict_total_order(sa, sb, sa);
        }
        Ordering::Greater
    } else {
        assert(sa =~= sb);
        Ordering::Equal
    }
}

/// The integer values of a sequence of 64-bit codes.
pub open spec fn codes_of(s: Seq<u64>) -> Seq<int> {
    s.map_values(|x: u64| x as int)
}

} // verus!
