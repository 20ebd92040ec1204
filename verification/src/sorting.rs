//! A verified insertion sort for string collections under the lexicographic
//! order, exposed through the [`Sorted`] trait.

use crate::order::{
    lemma_lex_lt_asymm, lemma_lex_lt_connected, lemma_lex_lt_irrefl, lemma_lex_lt_trans, lex_lt,
    str_lex_lt,
};
use vstd::multiset::Multiset;
use vstd::prelude::*;

verus! {

/// An element that stands for a character sequence and can be compared by
/// the lexicographic order.
trait LexElem: Sized {
    /// The character sequence the element stands for.
    spec fn key(self) -> Seq<char>;

    /// Decide whether `self` comes strictly before `other`.
    fn before(&self, other: &Self) -> (r: bool)
        ensures
            r == lex_lt(self.key(), other.key()),
    ;
}

impl LexElem for String {
    closed spec fn key(self) -> Seq<char> {
        self@
    }

    fn before(&self, other: &Self) -> (r: bool) {
        str_lex_lt(self.as_str(), other.as_str())
    }
}

impl<'a> LexElem for &'a String {
    closed spec fn key(self) -> Seq<char> {
        self@
    }

    fn before(&self, other: &Self) -> (r: bool) {
        str_lex_lt(self.as_str(), other.as_str())
    }
}

impl<'a> LexElem for &'a str {
    closed spec fn key(self) -> Seq<char> {
        self@
    }

    fn before(&self, other: &Self) -> (r: bool) {
        str_lex_lt(*self, *other)
    }
}

/// The character sequences the elements of `s` stand for, in order.
spec fn keys_of<T: LexElem>(s: Seq<T>) -> Seq<Seq<char>> {
    s.map_values(|t: T| t.key())
}

/// Insertion sort: the result holds the same keys with the same
/// multiplicities, in ascending lexicographic order.
fn sort_elems<T: LexElem>(v: Vec<T>) -> (r: Vec<T>)
    ensures
        keys_of(r@).to_multiset() == keys_of(v@).to_multiset(),
        forall|k1: int, k2: int|
            0 <= k1 < k2 < r@.len() ==> !lex_lt(
                #[trigger] keys_of(r@)[k2],
                #[trigger] keys_of(r@)[k1],
            ),
{
    broadcast use vstd::seq_lib::group_to_multiset_ensures;
    broadcast use vstd::multiset::lemma_multiset_empty_len;

    let mut src = v;
    let mut out: Vec<T> = Vec::new();
    while src.len() > 0
        invariant
            keys_of(out@).to_multiset().add(keys_of(src@).to_multiset()) =~= keys_of(
                v@,
            ).to_multiset(),
            forall|k1: int, k2: int|
                0 <= k1 < k2 < out@.len() ==> !lex_lt(
                    #[trigger] keys_of(out@)[k2],
                    #[trigger] keys_of(out@)[k1],
                ),
        decreases src@.len(),
    {
        broadcast use vstd::seq_lib::group_to_multiset_ensures;

        let ghost old_src = src@;
        let ghost old_out = out@;
        let x = match src.pop() {
            Some(x) => x,
            None => vstd::pervasive::unreached(),
        };
        proof {
            let last = old_src.len() - 1;
            assert(src@ =~= old_src.remove(last));
            assert(keys_of(src@) =~= keys_of(old_src).remove(last));
            assert(keys_of(old_src)[last] == x.key());
            assert(keys_of(old_src).remove(last).to_multiset() =~= keys_of(
                old_src,
            ).to_multiset().remove(x.key()));
            assert(keys_of(old_src).contains(x.key()));
            assert(keys_of(old_src).to_multiset().count(x.key()) > 0);
        }
        let mut pos: usize = 0;
        while pos < out.len() && out[pos].before(&x)
            invariant
                pos <= out@.len(),
                forall|k: int| 0 <= k < pos ==> lex_lt(#[trigger] keys_of(out@)[k], x.key()),
                forall|k1: int, k2: int|
                    0 <= k1 < k2 < out@.len() ==> !lex_lt(
                        #[trigger] keys_of(out@)[k2],
                        #[trigger] keys_of(out@)[k1],
                    ),
            decreases out@.len() - pos,
        {
            pos += 1;
        }
        out.insert(pos, x);
        proof {
            let no = out@;
            assert(no.remove(pos as int) =~= old_out);
            assert(keys_of(no).remove(pos as int) =~= keys_of(old_out));
            assert(keys_of(no)[pos as int] == x.key());
            assert(keys_of(no).remove(pos as int).to_multiset() =~= keys_of(
                no,
            ).to_multiset().remove(x.key()));
            assert(keys_of(no).contains(x.key()));
            assert(keys_of(no).to_multiset().count(x.key()) > 0);
            assert(keys_of(no).to_multiset() =~= keys_of(old_out).to_multiset().insert(x.key()));
            assert(keys_of(no).to_multiset().add(keys_of(src@).to_multiset()) =~= keys_of(
                v@,
            ).to_multiset());
            // the new element sits between what the scan passed and the rest
            assert forall|k1: int, k2: int|
                0 <= k1 < k2 < no.len() implies !lex_lt(
                #[trigger] keys_of(no)[k2],
                #[trigger] keys_of(no)[k1],
            ) by {
                let ko = keys_of(old_out);
                let kn = keys_of(no);
                assert(forall|k: int| 0 <= k < pos ==> #[trigger] kn[k] == ko[k]);
                assert(forall|k: int| pos < k < kn.len() ==> #[trigger] kn[k] == ko[k - 1]);
                if k1 < pos && k2 == pos {
                    assert(lex_lt(ko[k1], x.key()));
                    lemma_lex_lt_asymm(ko[k1], x.key());
                } else if k1 == pos && k2 > pos {
                    if lex_lt(ko[k2 - 1], x.key()) {
                        assert(pos < old_out.len());
                        assert(!lex_lt(ko[pos as int], x.key()));
                        if lex_lt(x.key(), ko[pos as int]) {
                            lemma_lex_lt_trans(ko[k2 - 1], x.key(), ko[pos as int]);
                        } else {
                            lemma_lex_lt_connected(x.key(), ko[pos as int]);
                        }
                        if pos == k2 - 1 {
                            lemma_lex_lt_irrefl(ko[pos as int]);
                        }
                        assert(false);
                    }
                }
            }
        }
    }
    proof {
        assert(keys_of(src@) =~= Seq::<Seq<char>>::empty());
        assert(keys_of(src@).to_multiset().len() == 0);
        assert(keys_of(src@).to_multiset() =~= Multiset::<Seq<char>>::empty());
        assert(keys_of(out@).to_multiset() =~= keys_of(v@).to_multiset());
    }
    out
}

/// A collection of strings that can be handed back reordered into ascending
/// lexicographic order.
pub trait Sorted: Sized {
    /// The character sequences the collection holds, in order.
    spec fn keys(self) -> Seq<Seq<char>>;

    /// The same collection, in ascending lexicographic order; duplicates are
    /// kept.
    fn sorted(self) -> (r: Self)
        ensures
            r.keys().to_multiset() == self.keys().to_multiset(),
            forall|k1: int, k2: int|
                0 <= k1 < k2 < r.keys().len() ==> !lex_lt(
                    #[trigger] r.keys()[k2],
                    #[trigger] r.keys()[k1],
                ),
    ;
}

impl Sorted for Vec<String> {
    open spec fn keys(self) -> Seq<Seq<char>> {
        self@.map_values(|s: String| s@)
    }

    fn sorted(self) -> (r: Self) {
        let ghost s0 = self;
        let r = sort_elems(self);
        proof {
            assert(r.keys() =~= keys_of(r@));
            assert(s0.keys() =~= keys_of(s0@));
        }
        r
    }
}

impl<'a> Sorted for Vec<&'a String> {
    open spec fn keys(self) -> Seq<Seq<char>> {
        self@.map_values(|s: &String| s@)
    }

    fn sorted(self) -> (r: Self) {
        let ghost s0 = self;
        let r = sort_elems(self);
        proof {
            assert(r.keys() =~= keys_of(r@));
            assert(s0.keys() =~= keys_of(s0@));
        }
        r
    }
}

impl<'a> Sorted for Vec<&'a str> {
    open spec fn keys(self) -> Seq<Seq<char>> {
        self@.map_values(|s: &str| s@)
    }

    fn sorted(self) -> (r: Self) {
        let ghost s0 = self;
        let r = sort_elems(self);
        proof {
            assert(r.keys() =~= keys_of(r@));
            assert(s0.keys() =~= keys_of(s0@));
        }
        r
    }
}

} // verus!
