//! General laws of the trie operations, stated over the set of stored
//! strings that the operations' contracts speak of: `insert` ensures the set
//! grows by the inserted string, `remove` ensures it shrinks by the removed
//! one, `contains` reports membership, and every search variant ensures its
//! result is a prefix listing in the sense of [`is_prefix_listing`].

use crate::order::{lemma_lex_lt_irrefl, lemma_lex_lt_trans, lex_lt};
use vstd::prelude::*;

verus! {

/// After inserting `s`, the trie contains `s`.
pub proof fn lemma_insert_establishes_membership(pre: Set<Seq<char>>, s: Seq<char>)
    ensures
        pre.insert(s).contains(s),
{
}

/// After inserting `s` and then removing it, the trie no longer contains
/// `s`, and every other string keeps the membership it had after the insert.
pub proof fn lemma_insert_then_remove(pre: Set<Seq<char>>, s: Seq<char>, t: Seq<char>)
    ensures
        !pre.insert(s).remove(s).contains(s),
        t != s ==> pre.insert(s).remove(s).contains(t) == pre.insert(s).contains(t),
{
}

/// Removing a string never disturbs the membership of any other string.
pub proof fn lemma_remove_preserves_others(pre: Set<Seq<char>>, s: Seq<char>, t: Seq<char>)
    requires
        t != s,
    ensures
        pre.remove(s).contains(t) == pre.contains(t),
{
}

/// Inserting a string twice leaves the same stored set as inserting it
/// once, so every later `contains` or search observes the same state.
pub proof fn lemma_insert_idempotent(pre: Set<Seq<char>>, s: Seq<char>)
    ensures
        pre.insert(s).insert(s) == pre.insert(s),
{
    assert(pre.insert(s).insert(s) =~= pre.insert(s));
}

/// Removing a string that is not stored is a no-op: the stored set, and with
/// it every `contains` result, is unchanged.
pub proof fn lemma_remove_absent_noop(pre: Set<Seq<char>>, s: Seq<char>)
    requires
        !pre.contains(s),
    ensures
        pre.remove(s) == pre,
{
    assert(pre.remove(s) =~= pre);
}

/// `r` lists exactly the members of `m` that have `pre` as a prefix, in
/// strictly ascending lexicographic order — the shape that every search
/// variant's contract gives its result.
pub open spec fn is_prefix_listing(m: Set<Seq<char>>, pre: Seq<char>, r: Seq<Seq<char>>) -> bool {
    &&& (forall|k: int|
        0 <= k < r.len() ==> m.contains(#[trigger] r[k]) && pre.is_prefix_of(r[k]))
    &&& (forall|t: Seq<char>|
        #![trigger m.contains(t), pre.is_prefix_of(t)]
        m.contains(t) && pre.is_prefix_of(t) ==> exists|k: int| 0 <= k < r.len() && r[k] == t)
    &&& (forall|k1: int, k2: int| 0 <= k1 < k2 < r.len() ==> lex_lt(#[trigger] r[k1], #[trigger] r[k2]))
}

/// `t` is one of the elements of `r`.
pub open spec fn lists(r: Seq<Seq<char>>, t: Seq<char>) -> bool {
    exists|k: int| 0 <= k < r.len() && r[k] == t
}

/// Two strictly sorted sequences with the same members are the same
/// sequence.
pub proof fn lemma_sorted_distinct_unique(r1: Seq<Seq<char>>, r2: Seq<Seq<char>>)
    requires
        forall|k1: int, k2: int| 0 <= k1 < k2 < r1.len() ==> lex_lt(#[trigger] r1[k1], #[trigger] r1[k2]),
        forall|k1: int, k2: int| 0 <= k1 < k2 < r2.len() ==> lex_lt(#[trigger] r2[k1], #[trigger] r2[k2]),
        forall|t: Seq<char>|
            #![trigger lists(r1, t)]
            #![trigger lists(r2, t)]
            lists(r1, t) <==> lists(r2, t),
    ensures
        r1 == r2,
    decreases r1.len(),
{
    if r1.len() == 0 {
        if r2.len() > 0 {
            assert(lists(r2, r2[0]));
            assert(lists(r1, r2[0]));
            assert(false);
        }
        assert(r1 =~= r2);
    } else {
        assert(lists(r1, r1[0]));
        assert(lists(r2, r1[0]));
        assert(r2.len() > 0);
        let k2 = choose|k: int| 0 <= k < r2.len() && r2[k] == r1[0];
        if k2 != 0 {
            assert(lex_lt(r2[0], r2[k2]));
            assert(lists(r2, r2[0]));
            assert(lists(r1, r2[0]));
            let k1 = choose|k: int| 0 <= k < r1.len() && r1[k] == r2[0];
            if k1 == 0 {
                lemma_lex_lt_irrefl(r1[0]);
            } else {
                assert(lex_lt(r1[0], r1[k1]));
                lemma_lex_lt_trans(r1[0], r2[0], r1[0]);
                lemma_lex_lt_irrefl(r1[0]);
            }
            assert(false);
        }
        assert(r2[0] == r1[0]);
        let t1 = r1.skip(1);
        let t2 = r2.skip(1);
        assert forall|t: Seq<char>|
            #![trigger lists(t1, t)]
            #![trigger lists(t2, t)]
            lists(t1, t) <==> lists(t2, t) by {
            if lists(t1, t) {
                let k = choose|k: int| 0 <= k < t1.len() && t1[k] == t;
                assert(r1[k + 1] == t);
                assert(lists(r1, t));
                assert(lex_lt(r1[0], t));
                assert(lists(r2, t));
                let m = choose|m: int| 0 <= m < r2.len() && r2[m] == t;
                if m == 0 {
                    lemma_lex_lt_irrefl(t);
                }
                assert(t2[m - 1] == t);
                assert(lists(t2, t));
            }
            if lists(t2, t) {
                let k = choose|k: int| 0 <= k < t2.len() && t2[k] == t;
                assert(r2[k + 1] == t);
                assert(lists(r2, t));
                assert(lex_lt(r2[0], t));
                assert(lists(r1, t));
                let m = choose|m: int| 0 <= m < r1.len() && r1[m] == t;
                if m == 0 {
                    lemma_lex_lt_irrefl(t);
                }
                assert(t1[m - 1] == t);
                assert(lists(t1, t));
            }
        }
        assert(forall|k1: int, k2: int|
            0 <= k1 < k2 < t1.len() ==> lex_lt(#[trigger] t1[k1], #[trigger] t1[k2]));
        assert(forall|k1: int, k2: int|
            0 <= k1 < k2 < t2.len() ==> lex_lt(#[trigger] t2[k1], #[trigger] t2[k2]));
        lemma_sorted_distinct_unique(t1, t2);
        assert forall|i: int| 0 <= i < r1.len() implies r1[i] == r2[i] by {
            if i > 0 {
                assert(t1[i - 1] == r1[i]);
                assert(t2[i - 1] == r2[i]);
            }
        }
        assert(r1 =~= r2);
    }
}

/// All search variants agree: any two prefix listings of the same stored
/// set and prefix are the same, element for element — in particular their
/// result sets are identical, and the sorted deduplicated listing of the
/// matching strings is unique.
pub proof fn lemma_search_variants_agree(
    m: Set<Seq<char>>,
    pre: Seq<char>,
    r1: Seq<Seq<char>>,
    r2: Seq<Seq<char>>,
)
    requires
        is_prefix_listing(m, pre, r1),
        is_prefix_listing(m, pre, r2),
    ensures
        r1 == r2,
{
    assert forall|t: Seq<char>|
        #![trigger lists(r1, t)]
        #![trigger lists(r2, t)]
        lists(r1, t) <==> lists(r2, t) by {
        if lists(r1, t) {
            let k = choose|k: int| 0 <= k < r1.len() && r1[k] == t;
            assert(m.contains(t) && pre.is_prefix_of(t));
            let j = choose|j: int| 0 <= j < r2.len() && r2[j] == t;
            assert(lists(r2, t));
        }
        if lists(r2, t) {
            let k = choose|k: int| 0 <= k < r2.len() && r2[k] == t;
            assert(m.contains(t) && pre.is_prefix_of(t));
            let j = choose|j: int| 0 <= j < r1.len() && r1[j] == t;
            assert(lists(r1, t));
        }
    }
    lemma_sorted_distinct_unique(r1, r2);
}

} // verus!
