//! The lexicographic order on character sequences, used to state in which
//! order a prefix search hands its results out.

use vstd::prelude::*;
use vstd::string::StrSliceExecFns;

verus! {

/// Strict lexicographic order by unicode scalar value: `a` comes before `b`
/// when `a` is a proper prefix of `b`, or the first character on which the
/// two differ is smaller in `a`.
pub open spec fn lex_lt(a: Seq<char>, b: Seq<char>) -> bool
    decreases a.len(),
{
    if b.len() == 0 {
        false
    } else if a.len() == 0 {
        true
    } else if a[0] != b[0] {
        a[0] < b[0]
    } else {
        lex_lt(a.skip(1), b.skip(1))
    }
}

/// A proper prefix comes strictly before the longer sequence.
pub proof fn lemma_proper_prefix_lex_lt(a: Seq<char>, b: Seq<char>)
    requires
        a.is_prefix_of(b),
        a.len() < b.len(),
    ensures
        lex_lt(a, b),
    decreases a.len(),
{
    if a.len() > 0 {
        assert(a[0] == b[0]);
        assert(a.skip(1) =~= b.skip(1).subrange(0, a.len() - 1));
        lemma_proper_prefix_lex_lt(a.skip(1), b.skip(1));
    }
}

/// Two sequences that share the prefix `p` and then differ are ordered by
/// the first character after `p`.
pub proof fn lemma_diverge_lex_lt(p: Seq<char>, a: Seq<char>, b: Seq<char>)
    requires
        p.is_prefix_of(a),
        p.is_prefix_of(b),
        p.len() < a.len(),
        p.len() < b.len(),
        a[p.len() as int] < b[p.len() as int],
    ensures
        lex_lt(a, b),
    decreases p.len(),
{
    if p.len() == 0 {
        assert(a[0] < b[0]);
    } else {
        assert(a[0] == p[0] && b[0] == p[0]);
        assert(p.skip(1).is_prefix_of(a.skip(1))) by {
            assert(p.skip(1) =~= a.skip(1).subrange(0, p.len() - 1));
        }
        assert(p.skip(1).is_prefix_of(b.skip(1))) by {
            assert(p.skip(1) =~= b.skip(1).subrange(0, p.len() - 1));
        }
        assert(a.skip(1)[p.len() - 1] == a[p.len() as int]);
        assert(b.skip(1)[p.len() - 1] == b[p.len() as int]);
        lemma_diverge_lex_lt(p.skip(1), a.skip(1), b.skip(1));
    }
}

/// The order is irreflexive.
pub proof fn lemma_lex_lt_irrefl(a: Seq<char>)
    ensures
        !lex_lt(a, a),
    decreases a.len(),
{
    if a.len() > 0 {
        lemma_lex_lt_irrefl(a.skip(1));
    }
}

/// The order is transitive.
pub proof fn lemma_lex_lt_trans(a: Seq<char>, b: Seq<char>, c: Seq<char>)
    requires
        lex_lt(a, b),
        lex_lt(b, c),
    ensures
        lex_lt(a, c),
    decreases b.len(),
{
    if a.len() > 0 && b.len() > 0 && c.len() > 0 {
        if a[0] == b[0] && b[0] == c[0] {
            lemma_lex_lt_trans(a.skip(1), b.skip(1), c.skip(1));
        }
    }
}

/// The order is asymmetric.
pub proof fn lemma_lex_lt_asymm(a: Seq<char>, b: Seq<char>)
    requires
        lex_lt(a, b),
    ensures
        !lex_lt(b, a),
{
    if lex_lt(b, a) {
        lemma_lex_lt_trans(a, b, a);
        lemma_lex_lt_irrefl(a);
    }
}

/// Sequences that agree on their first `i` characters are ordered as their
/// remainders are.
pub proof fn lemma_lex_lt_skip(a: Seq<char>, b: Seq<char>, i: int)
    requires
        0 <= i <= a.len(),
        i <= b.len(),
        forall|k: int| 0 <= k < i ==> a[k] == b[k],
    ensures
        lex_lt(a, b) == lex_lt(a.skip(i), b.skip(i)),
    decreases i,
{
    if i > 0 {
        assert(a.len() > 0 && b.len() > 0 && a[0] == b[0]);
        assert(forall|k: int|
            0 <= k < i - 1 ==> a.skip(1)[k] == a[k + 1] && b.skip(1)[k] == b[k + 1]);
        lemma_lex_lt_skip(a.skip(1), b.skip(1), i - 1);
        assert(a.skip(1).skip(i - 1) =~= a.skip(i));
        assert(b.skip(1).skip(i - 1) =~= b.skip(i));
    } else {
        assert(a.skip(0) =~= a);
        assert(b.skip(0) =~= b);
    }
}

/// Decide the lexicographic order of two strings, character by character.
pub fn str_lex_lt(a: &str, b: &str) -> (r: bool)
    ensures
        r == lex_lt(a@, b@),
{
    let na = a.unicode_len();
    let nb = b.unicode_len();
    let mut i: usize = 0;
    while i < na && i < nb
        invariant
            i <= na,
            i <= nb,
            na == a@.len(),
            nb == b@.len(),
            forall|k: int| 0 <= k < i ==> a@[k] == b@[k],
        decreases na - i,
    {
        let ca = a.get_char(i);
        let cb = b.get_char(i);
        if ca != cb {
            proof {
                lemma_lex_lt_skip(a@, b@, i as int);
                assert(a@.skip(i as int)[0] == ca);
                assert(b@.skip(i as int)[0] == cb);
            }
            return ca < cb;
        }
        i += 1;
    }
    proof {
        lemma_lex_lt_skip(a@, b@, i as int);
        assert(a@.skip(i as int).len() == na - i);
        assert(b@.skip(i as int).len() == nb - i);
    }
    na < nb
}

/// A sequence that comes before `p` also comes before every extension of
/// `p`.
pub proof fn lemma_lex_lt_extends(e: Seq<char>, p: Seq<char>, t: Seq<char>)
    requires
        lex_lt(e, p),
        p.is_prefix_of(t),
    ensures
        lex_lt(e, t),
    decreases p.len(),
{
    if p.len() > 0 {
        assert(t.len() >= p.len() && t[0] == p[0]);
        if e.len() > 0 && e[0] == p[0] {
            assert(p.skip(1).is_prefix_of(t.skip(1))) by {
                assert(p.skip(1) =~= t.skip(1).subrange(0, p.len() - 1));
            }
            lemma_lex_lt_extends(e.skip(1), p.skip(1), t.skip(1));
        }
    }
}

/// A prefix that diverges from `q` somewhere still diverges from `q`, and
/// still comes before it, after one more character.
pub proof fn lemma_diverge_extend(p: Seq<char>, q: Seq<char>, c: char)
    requires
        lex_lt(p, q),
        !p.is_prefix_of(q),
    ensures
        lex_lt(p.push(c), q),
        !p.push(c).is_prefix_of(q),
    decreases p.len(),
{
    if p.len() == 0 {
        assert(p.is_prefix_of(q)) by {
            assert(p =~= q.subrange(0, 0));
        }
    } else {
        assert(q.len() > 0);
        if p[0] != q[0] {
            assert(p.push(c)[0] == p[0]);
            assert(lex_lt(p.push(c), q));
            if p.push(c).is_prefix_of(q) {
                assert(p.push(c) =~= q.subrange(0, p.len() as int + 1));
            }
        } else {
            assert(!p.skip(1).is_prefix_of(q.skip(1))) by {
                if p.skip(1).is_prefix_of(q.skip(1)) {
                    assert(p.is_prefix_of(q)) by {
                        assert(forall|i: int|
                            1 <= i < p.len() ==> p[i] == p.skip(1)[i - 1]);
                        assert(forall|i: int|
                            1 <= i < q.len() ==> q[i] == q.skip(1)[i - 1]);
                        assert(p =~= q.subrange(0, p.len() as int));
                    }
                }
            }
            lemma_diverge_extend(p.skip(1), q.skip(1), c);
            assert(p.push(c).skip(1) =~= p.skip(1).push(c));
            assert(lex_lt(p.push(c), q));
            if p.push(c).is_prefix_of(q) {
                assert(p.skip(1).push(c).is_prefix_of(q.skip(1))) by {
                    assert(p.push(c).skip(1) =~= q.skip(1).subrange(0, p.len() as int));
                    assert(p.skip(1).push(c) =~= q.skip(1).subrange(0, p.len() as int));
                }
            }
        }
    }
}

/// The order is connected: two sequences neither of which comes before the
/// other are equal.
pub proof fn lemma_lex_lt_connected(a: Seq<char>, b: Seq<char>)
    requires
        !lex_lt(a, b),
        !lex_lt(b, a),
    ensures
        a == b,
    decreases a.len(),
{
    if a.len() == 0 || b.len() == 0 {
        assert(a =~= b);
    } else {
        lemma_lex_lt_connected(a.skip(1), b.skip(1));
        assert(a =~= b) by {
            assert(a.skip(1) == b.skip(1));
            assert(a.len() == a.skip(1).len() + 1);
            assert(forall|i: int|
                1 <= i < a.len() ==> a[i] == a.skip(1)[i - 1] && b[i] == b.skip(1)[i - 1]);
        }
    }
}

} // verus!
