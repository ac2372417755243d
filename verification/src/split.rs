//! The splitting iterator: a cursor over the text still to be cut, advanced
//! one piece at a time, that always yields one final piece before it runs out.

use vstd::prelude::*;
use vstd::string::StrSliceExecFns;
use crate::delimiter::Delimiter;
use crate::model::{split_elems, lemma_first_match_from_is, lemma_first_match_from_none,
    lemma_at_least_one};

verus! {

/// A lazy splitter over a borrowed string.
///
/// It holds the text still to be examined — `Some` of a remainder, possibly
/// empty, while active; `None` once exhausted — together with the delimiter,
/// and yields, on each [`StrSplit::next`], the text before the leftmost
/// remaining occurrence of the delimiter. An empty remainder is not
/// exhaustion: it still owes one empty piece.
pub struct StrSplit<'h, D> {
    remainder: Option<&'h str>,
    delimiter: D,
}

impl<'h, D: Delimiter> StrSplit<'h, D> {
    /// The pieces this splitter has still to yield, in order.
    pub closed spec fn pieces(self) -> Seq<Seq<char>> {
        match self.remainder {
            Some(r) => split_elems(self.delimiter, r@),
            None => Seq::empty(),
        }
    }

    /// The delimiter this splitter cuts with.
    pub closed spec fn delim(self) -> D {
        self.delimiter
    }

    /// Begin splitting `haystack`: every piece is still to come.
    pub fn new(haystack: &'h str, delimiter: D) -> (it: Self)
        ensures
            it.pieces() == split_elems(delimiter, haystack@),
            it.delim() == delimiter,
    {
        Self { remainder: Some(haystack), delimiter }
    }

    /// Yield the next piece: the text before the leftmost remaining
    /// occurrence of the delimiter, or the whole remainder when no
    /// occurrence is left — and, once every piece is out, nothing, forever.
    pub fn next(&mut self) -> (item: Option<&'h str>)
        ensures
            final(self).delim() == old(self).delim(),
            match item {
                Some(piece) => {
                    &&& old(self).pieces().len() > 0
                    &&& piece@ == old(self).pieces()[0]
                    &&& final(self).pieces() == old(self).pieces().drop_first()
                },
                None => {
                    &&& old(self).pieces().len() == 0
                    &&& final(self).pieces().len() == 0
                },
            },
    {
        match self.remainder {
            None => None,
            Some(rem) => {
                let ghost d = self.delimiter;
                match self.delimiter.find_next(rem) {
                    Some((start, end)) => {
                        proof {
                            lemma_first_match_from_is(d, rem@, 0, start as int);
                        }
                        let piece = rem.substring_char(0, start);
                        let rest = rem.substring_char(end, rem.unicode_len());
                        self.remainder = Some(rest);
                        proof {
                            assert(old(self).pieces() ==
                                seq![piece@] + split_elems(d, rest@));
                            assert(old(self).pieces().drop_first() =~=
                                split_elems(d, rest@));
                        }
                        Some(piece)
                    },
                    None => {
                        proof {
                            lemma_first_match_from_none(d, rem@, 0);
                            assert(old(self).pieces() =~= seq![rem@]);
                            assert(old(self).pieces().drop_first() =~=
                                Seq::<Seq<char>>::empty());
                        }
                        self.remainder = None;
                        Some(rem)
                    },
                }
            },
        }
    }
}

/// The text before the first occurrence of `c` in `s` — the whole of `s`
/// when `c` does not occur. The first piece of a split always exists, so
/// this is total: it never fails and never panics.
pub fn until_char<'a>(s: &'a str, c: char) -> (r: &'a str)
    ensures
        r@ == split_elems(c, s@)[0],
        r@.len() <= s@.len(),
        r@ == s@.subrange(0, r@.len() as int),
        forall|i: int| 0 <= i < r@.len() ==> s@[i] != c,
        r@.len() < s@.len() ==> s@[r@.len() as int] == c,
{
    let mut it = StrSplit::new(s, c);
    proof {
        lemma_at_least_one(c, s@);
        lemma_until_char_first_piece(c, s@);
    }
    match it.next() {
        Some(piece) => piece,
        None => vstd::pervasive::unreached(),
    }
}

/// The first piece of a split on a character is the longest prefix free of
/// that character, and is followed by it whenever anything follows at all.
proof fn lemma_until_char_first_piece(c: char, s: Seq<char>)
    ensures
        split_elems(c, s)[0].len() <= s.len(),
        split_elems(c, s)[0] == s.subrange(0, split_elems(c, s)[0].len() as int),
        forall|i: int| 0 <= i < split_elems(c, s)[0].len() ==> s[i] != c,
        split_elems(c, s)[0].len() < s.len() ==> s[split_elems(c, s)[0].len() as int] == c,
{
    match crate::model::first_match_from(c, s, 0) {
        None => {
            crate::model::lemma_first_match_from_none_no_match(c, s, 0);
            assert(split_elems(c, s)[0] =~= s.subrange(0, s.len() as int));
            assert(s.subrange(0, s.len() as int) =~= s);
            assert forall|i: int| 0 <= i < split_elems(c, s)[0].len() implies s[i] != c by {
                assert(!c.match_at(s, i));
            }
        },
        Some(i) => {
            crate::model::lemma_first_match_from_some(c, s, 0);
            assert(split_elems(c, s)[0] =~= s.subrange(0, i));
            assert forall|j: int| 0 <= j < split_elems(c, s)[0].len() implies s[j] != c by {
                assert(!c.match_at(s, j));
            }
            assert(c.match_at(s, i));
        },
    }
}

} // verus!
