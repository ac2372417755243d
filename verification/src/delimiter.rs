//! The delimiter capability: locating the next occurrence of a delimiter
//! inside a text, described by two spec functions and realised by a search
//! routine with an exact contract.

use vstd::prelude::*;
use vstd::string::StrSliceExecFns;

verus! {

/// A value that can locate occurrences of itself inside a text.
///
/// `match_at` says where an occurrence begins and `match_end` where that
/// occurrence ends (exclusive); `find_next` must report the leftmost
/// occurrence, exactly. Any type implementing this contract can drive a
/// [`crate::StrSplit`]; implementations for literal substrings (`&str`)
/// and single characters (`char`) are given below. Positions are indices
/// into the sequence of characters of the text.
pub trait Delimiter: Sized {
    /// True when an occurrence of this delimiter begins at position `i` of `s`.
    spec fn match_at(&self, s: Seq<char>, i: int) -> bool;

    /// The exclusive end position of the occurrence beginning at `i`.
    spec fn match_end(&self, s: Seq<char>, i: int) -> int;

    /// Locate the leftmost occurrence of this delimiter in `s`, as a
    /// half-open position pair, or report that there is none.
    fn find_next(&self, s: &str) -> (r: Option<(usize, usize)>)
        ensures
            match r {
                Some(m) => {
                    &&& m.0 < m.1 <= s@.len()
                    &&& self.match_at(s@, m.0 as int)
                    &&& m.1 as int == self.match_end(s@, m.0 as int)
                    &&& forall|j: int| 0 <= j < m.0 as int ==> !self.match_at(s@, j)
                },
                None => forall|j: int| 0 <= j < s@.len() ==> !self.match_at(s@, j),
            },
    ;
}

impl Delimiter for char {
    /// The character stands at position `i`.
    open spec fn match_at(&self, s: Seq<char>, i: int) -> bool {
        0 <= i < s.len() && s[i] == *self
    }

    /// A character occupies exactly one position.
    open spec fn match_end(&self, s: Seq<char>, i: int) -> int {
        i + 1
    }

    fn find_next(&self, s: &str) -> (r: Option<(usize, usize)>) {
        let n = s.unicode_len();
        let mut i: usize = 0;
        while i < n
            invariant
                n == s@.len(),
                i <= n,
                forall|j: int| 0 <= j < i ==> !self.match_at(s@, j),
            decreases n - i,
        {
            if s.get_char(i) == *self {
                return Some((i, i + 1));
            }
            i += 1;
        }
        None
    }
}

impl<'a> Delimiter for &'a str {
    /// A full copy of the (non-empty) literal stands at position `i`.
    ///
    /// The empty literal is degenerate — it would occur, with zero width, at
    /// every position — so it is defined to occur nowhere: splitting on it
    /// yields the whole text as a single piece.
    open spec fn match_at(&self, s: Seq<char>, i: int) -> bool {
        &&& self@.len() > 0
        &&& 0 <= i
        &&& i + self@.len() <= s.len()
        &&& s.subrange(i, i + self@.len() as int) == self@
    }

    /// The occurrence ends one literal length after it begins.
    open spec fn match_end(&self, s: Seq<char>, i: int) -> int {
        i + self@.len() as int
    }

    fn find_next(&self, s: &str) -> (r: Option<(usize, usize)>) {
        let n = s.unicode_len();
        let m = self.unicode_len();
        if m == 0 || m > n {
            return None;
        }
        let mut i: usize = 0;
        while i <= n - m
            invariant
                n == s@.len(),
                m == self@.len(),
                0 < m <= n,
                i <= n - m + 1,
                forall|j: int| 0 <= j < i ==> !self.match_at(s@, j),
            decreases n - m + 1 - i,
        {
            if literal_stands_at(self, s, i) {
                return Some((i, i + m));
            }
            i += 1;
        }
        assert forall|j: int| 0 <= j < s@.len() implies !self.match_at(s@, j) by {
            if j + self@.len() <= s@.len() {
                assert(j < i);
            }
        }
        None
    }
}

/// Compare the literal against the run of characters of `s` beginning at `i`.
fn literal_stands_at(lit: &str, s: &str, i: usize) -> (r: bool)
    requires
        i + lit@.len() <= s@.len(),
        s@.len() <= usize::MAX as int,
    ensures
        r == (s@.subrange(i as int, i + lit@.len() as int) == lit@),
{
    let m = lit.unicode_len();
    let mut k: usize = 0;
    while k < m
        invariant
            m == lit@.len(),
            k <= m,
            i + m <= s@.len() <= usize::MAX as int,
            forall|t: int| 0 <= t < k ==> s@[i + t] == lit@[t],
        decreases m - k,
    {
        if s.get_char(i + k) != lit.get_char(k) {
            assert(s@.subrange(i as int, i + lit@.len() as int)[k as int] != lit@[k as int]);
            return false;
        }
        k += 1;
    }
    assert(s@.subrange(i as int, i + lit@.len() as int) =~= lit@);
    true
}

} // verus!
