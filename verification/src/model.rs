//! The mathematical model of splitting: the sequence of pieces a delimiter
//! cuts a text into, the matched occurrences that separate them, and how the
//! two recombine into the original text.

use vstd::prelude::*;
use crate::delimiter::Delimiter;

verus! {

/// The position of the leftmost occurrence of `d` in `s` at or after `i`,
/// or `None` when no occurrence remains.
pub open spec fn first_match_from<D: Delimiter>(d: D, s: Seq<char>, i: int) -> Option<int>
    recommends
        0 <= i <= s.len(),
    decreases s.len() - i,
{
    if i >= s.len() {
        None
    } else if d.match_at(s, i) {
        Some(i)
    } else {
        first_match_from(d, s, i + 1)
    }
}

/// The sequence of pieces that `d` cuts `s` into: the text before each
/// successive leftmost occurrence, and finally the text after the last one.
/// It always holds at least one piece, the empty text giving one empty piece.
pub open spec fn split_elems<D: Delimiter>(d: D, s: Seq<char>) -> Seq<Seq<char>>
    decreases s.len(),
{
    match first_match_from(d, s, 0) {
        None => seq![s],
        Some(i) => {
            let e = d.match_end(s, i);
            if 0 <= i && i < e && e <= s.len() {
                seq![s.subrange(0, i)] + split_elems(d, s.subrange(e, s.len() as int))
            } else {
                seq![s]
            }
        },
    }
}

/// The matched occurrences themselves, in the order the scan removes them;
/// its length is the number of non-overlapping occurrences of `d` in `s`.
pub open spec fn split_seps<D: Delimiter>(d: D, s: Seq<char>) -> Seq<Seq<char>>
    decreases s.len(),
{
    match first_match_from(d, s, 0) {
        None => Seq::empty(),
        Some(i) => {
            let e = d.match_end(s, i);
            if 0 <= i && i < e && e <= s.len() {
                seq![s.subrange(i, e)] + split_seps(d, s.subrange(e, s.len() as int))
            } else {
                Seq::empty()
            }
        },
    }
}

/// Interleave pieces and separators: the first piece, then alternately the
/// next separator and the next piece.
pub open spec fn rejoin(elems: Seq<Seq<char>>, seps: Seq<Seq<char>>) -> Seq<char>
    decreases elems.len(),
{
    if elems.len() == 0 {
        Seq::empty()
    } else if elems.len() == 1 || seps.len() == 0 {
        elems[0]
    } else {
        elems[0] + seps[0] + rejoin(elems.drop_first(), seps.drop_first())
    }
}

/// The leftmost occurrence at or after `i` is an occurrence, lies in range,
/// and nothing before it at or after `i` is one.
pub proof fn lemma_first_match_from_some<D: Delimiter>(d: D, s: Seq<char>, i: int)
    requires
        0 <= i <= s.len(),
        first_match_from(d, s, i) is Some,
    ensures
        i <= first_match_from(d, s, i)->Some_0 < s.len(),
        d.match_at(s, first_match_from(d, s, i)->Some_0),
        forall|j: int| i <= j < first_match_from(d, s, i)->Some_0 ==> !d.match_at(s, j),
    decreases s.len() - i,
{
    if i >= s.len() {
    } else if d.match_at(s, i) {
    } else {
        lemma_first_match_from_some(d, s, i + 1);
    }
}

/// An occurrence at `k` with none before it (at or after `i`) is the leftmost.
pub proof fn lemma_first_match_from_is<D: Delimiter>(d: D, s: Seq<char>, i: int, k: int)
    requires
        0 <= i <= k < s.len(),
        d.match_at(s, k),
        forall|j: int| i <= j < k ==> !d.match_at(s, j),
    ensures
        first_match_from(d, s, i) == Some(k),
    decreases s.len() - i,
{
    if i < k {
        lemma_first_match_from_is(d, s, i + 1, k);
    }
}

/// With no occurrence anywhere at or after `i`, the search comes up empty.
pub proof fn lemma_first_match_from_none<D: Delimiter>(d: D, s: Seq<char>, i: int)
    requires
        0 <= i <= s.len(),
        forall|j: int| i <= j < s.len() ==> !d.match_at(s, j),
    ensures
        first_match_from(d, s, i) is None,
    decreases s.len() - i,
{
    if i < s.len() {
        lemma_first_match_from_none(d, s, i + 1);
    }
}

/// When the search comes up empty, no occurrence stands anywhere at or after `i`.
pub proof fn lemma_first_match_from_none_no_match<D: Delimiter>(d: D, s: Seq<char>, i: int)
    requires
        0 <= i <= s.len(),
        first_match_from(d, s, i) is None,
    ensures
        forall|j: int| i <= j < s.len() ==> !d.match_at(s, j),
    decreases s.len() - i,
{
    if i < s.len() {
        lemma_first_match_from_none_no_match(d, s, i + 1);
    }
}

/// Splitting never yields an empty sequence of pieces: every text, the empty
/// one included, has at least its final piece.
pub proof fn lemma_at_least_one<D: Delimiter>(d: D, s: Seq<char>)
    ensures
        split_elems(d, s).len() >= 1,
{
}

/// The sequence of pieces is finite, with length exactly one more than the
/// number of non-overlapping occurrences the scan removes.
pub proof fn lemma_piece_count<D: Delimiter>(d: D, s: Seq<char>)
    ensures
        split_elems(d, s).len() == split_seps(d, s).len() + 1,
    decreases s.len(),
{
    match first_match_from(d, s, 0) {
        None => {},
        Some(i) => {
            let e = d.match_end(s, i);
            if 0 <= i && i < e && e <= s.len() {
                lemma_piece_count(d, s.subrange(e, s.len() as int));
            }
        },
    }
}

/// Total coverage: interleaving the pieces with the matched occurrences that
/// separated them reconstructs the original text exactly.
pub proof fn lemma_total_coverage<D: Delimiter>(d: D, s: Seq<char>)
    ensures
        rejoin(split_elems(d, s), split_seps(d, s)) == s,
    decreases s.len(),
{
    match first_match_from(d, s, 0) {
        None => {},
        Some(i) => {
            let e = d.match_end(s, i);
            if 0 <= i && i < e && e <= s.len() {
                let tail = s.subrange(e, s.len() as int);
                lemma_total_coverage(d, tail);
                lemma_at_least_one(d, tail);
                let elems = split_elems(d, s);
                let seps = split_seps(d, s);
                assert(elems.drop_first() =~= split_elems(d, tail));
                assert(seps.drop_first() =~= split_seps(d, tail));
                assert(rejoin(elems, seps) == s.subrange(0, i) + s.subrange(i, e) + tail);
                assert(s.subrange(0, i) + s.subrange(i, e) + tail =~= s);
            }
        },
    }
}

/// Splitting on a character re-inserts that character: every separator the
/// scan removes is the one-character sequence of the delimiter itself.
pub proof fn lemma_seps_char(c: char, s: Seq<char>)
    ensures
        forall|k: int| 0 <= k < split_seps(c, s).len() ==> split_seps(c, s)[k] == seq![c],
    decreases s.len(),
{
    match first_match_from(c, s, 0) {
        None => {},
        Some(i) => {
            let e = c.match_end(s, i);
            if 0 <= i && i < e && e <= s.len() {
                lemma_first_match_from_some(c, s, 0);
                let tail = s.subrange(e, s.len() as int);
                lemma_seps_char(c, tail);
                assert(s.subrange(i, e) =~= seq![c]);
                assert forall|k: int| 0 <= k < split_seps(c, s).len()
                    implies split_seps(c, s)[k] == seq![c] by {
                    if k > 0 {
                        assert(split_seps(c, s)[k] == split_seps(c, tail)[k - 1]);
                    }
                }
            }
        },
    }
}

/// Splitting on a literal re-inserts that literal: every separator the scan
/// removes is a copy of the literal.
pub proof fn lemma_seps_literal(lit: &str, s: Seq<char>)
    ensures
        forall|k: int| 0 <= k < split_seps(lit, s).len() ==> split_seps(lit, s)[k] == lit@,
    decreases s.len(),
{
    match first_match_from(lit, s, 0) {
        None => {},
        Some(i) => {
            let e = lit.match_end(s, i);
            if 0 <= i && i < e && e <= s.len() {
                lemma_first_match_from_some(lit, s, 0);
                let tail = s.subrange(e, s.len() as int);
                lemma_seps_literal(lit, tail);
                assert(s.subrange(i, e) == lit@);
                assert forall|k: int| 0 <= k < split_seps(lit, s).len()
                    implies split_seps(lit, s)[k] == lit@ by {
                    if k > 0 {
                        assert(split_seps(lit, s)[k] == split_seps(lit, tail)[k - 1]);
                    }
                }
            }
        },
    }
}

/// A text that ends with the delimiter character yields, as its last piece,
/// the empty text: an empty remainder is still one piece short of exhaustion.
pub proof fn lemma_trailing_empty_char(c: char, s: Seq<char>)
    requires
        s.len() > 0,
        s[s.len() - 1] == c,
    ensures
        split_elems(c, s).last() == Seq::<char>::empty(),
    decreases s.len(),
{
    assert(c.match_at(s, s.len() - 1));
    if first_match_from(c, s, 0) is None {
        lemma_first_match_from_none_no_match(c, s, 0);
    }
    let i = first_match_from(c, s, 0)->Some_0;
    lemma_first_match_from_some(c, s, 0);
    let e = i + 1;
    let tail = s.subrange(e, s.len() as int);
    lemma_at_least_one(c, tail);
    assert(split_elems(c, s).last() == split_elems(c, tail).last());
    if e == s.len() {
        assert(split_elems(c, tail).last() =~= Seq::<char>::empty());
    } else {
        assert(tail[tail.len() - 1] == c);
        lemma_trailing_empty_char(c, tail);
    }
}

/// A text that ends with the (non-empty) literal yields, as its last piece,
/// the empty text — provided no two occurrences of the literal overlap,
/// which the scan does not support.
pub proof fn lemma_trailing_empty_literal(lit: &str, s: Seq<char>)
    requires
        lit@.len() > 0,
        lit.match_at(s, s.len() - lit@.len()),
        forall|i: int, j: int|
            lit.match_at(s, i) && lit.match_at(s, j) && i < j ==> i + lit@.len() <= j,
    ensures
        split_elems(lit, s).last() == Seq::<char>::empty(),
    decreases s.len(),
{
    let m = lit@.len() as int;
    let p = s.len() - m;
    if first_match_from(lit, s, 0) is None {
        lemma_first_match_from_none_no_match(lit, s, 0);
    }
    let i = first_match_from(lit, s, 0)->Some_0;
    lemma_first_match_from_some(lit, s, 0);
    assert(i <= p);
    let e = lit.match_end(s, i);
    let tail = s.subrange(e, s.len() as int);
    lemma_at_least_one(lit, tail);
    assert(split_elems(lit, s).last() == split_elems(lit, tail).last());
    if i == p {
        assert(split_elems(lit, tail).last() =~= Seq::<char>::empty());
    } else {
        assert(i + m <= p);
        assert forall|k: int| lit.match_at(tail, k) implies lit.match_at(s, e + k) by {
            assert(s.subrange(e + k, e + k + m) =~= tail.subrange(k, k + m));
        }
        assert(tail.subrange(tail.len() - m, tail.len() as int) =~= s.subrange(p, s.len() as int));
        assert(lit.match_at(tail, tail.len() - m));
        lemma_trailing_empty_literal(lit, tail);
    }
}

} // verus!
