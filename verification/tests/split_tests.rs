use strsplit::{Delimiter, StrSplit, until_char};

fn collect_pieces<'h, D: Delimiter>(mut it: StrSplit<'h, D>) -> Vec<&'h str> {
    let mut out = Vec::new();
    while let Some(piece) = it.next() {
        out.push(piece);
    }
    out
}

#[test]
fn it_works() {
    let haystack = "a b c d e";
    let letters = StrSplit::new(haystack, " ");
    assert_eq!(collect_pieces(letters), vec!["a", "b", "c", "d", "e"]);
}

#[test]
fn tail() {
    let haystack = "a b c d ";
    let letters = collect_pieces(StrSplit::new(haystack, " "));
    assert_eq!(letters, vec!["a", "b", "c", "d", ""]);
}

#[test]
fn empty_haystack_yields_one_empty_piece() {
    assert_eq!(collect_pieces(StrSplit::new("", " ")), vec![""]);
}

#[test]
fn char_delimiter_at_end() {
    assert_eq!(collect_pieces(StrSplit::new("hello", 'o')), vec!["hell", ""]);
}

#[test]
fn char_delimiter_at_start() {
    assert_eq!(collect_pieces(StrSplit::new(",a", ',')), vec!["", "a"]);
}

#[test]
fn multi_character_literal() {
    assert_eq!(collect_pieces(StrSplit::new("ab::cd::ef", "::")), vec!["ab", "cd", "ef"]);
}

#[test]
fn adjacent_delimiters_yield_empty_piece() {
    assert_eq!(collect_pieces(StrSplit::new("x,y,,z", ',')), vec!["x", "y", "", "z"]);
}

#[test]
fn empty_literal_matches_nowhere() {
    assert_eq!(collect_pieces(StrSplit::new("abc", "")), vec!["abc"]);
}

#[test]
fn literal_longer_than_haystack() {
    assert_eq!(collect_pieces(StrSplit::new("ab", "abc")), vec!["ab"]);
}

#[test]
fn multibyte_char_delimiter() {
    let haystack = "a\u{2713}b\u{2713}c";
    assert_eq!(collect_pieces(StrSplit::new(haystack, '\u{2713}')), vec!["a", "b", "c"]);
}

#[test]
fn multibyte_literal_delimiter() {
    let haystack = "a\u{2713}b\u{2713}c";
    assert_eq!(collect_pieces(StrSplit::new(haystack, "\u{2713}")), vec!["a", "b", "c"]);
}

#[test]
fn until_char_finds_first_piece() {
    assert_eq!(until_char("hello.world", '.'), "hello");
}

#[test]
fn until_char_without_occurrence_returns_whole() {
    assert_eq!(until_char("hello", 'z'), "hello");
}

#[test]
fn until_char_on_empty_returns_empty() {
    assert_eq!(until_char("", '.'), "");
}

#[test]
fn exhausted_splitter_stays_exhausted() {
    let mut it = StrSplit::new("a,b", ',');
    assert_eq!(it.next(), Some("a"));
    assert_eq!(it.next(), Some("b"));
    assert_eq!(it.next(), None);
    assert_eq!(it.next(), None);
}

#[test]
fn pieces_rejoined_with_delimiter_rebuild_haystack() {
    let haystack = "one-two--three-";
    let pieces = collect_pieces(StrSplit::new(haystack, "-"));
    assert_eq!(pieces.join("-"), haystack);
}

#[test]
fn piece_count_is_occurrences_plus_one() {
    let haystack = "a b c d e";
    let pieces = collect_pieces(StrSplit::new(haystack, " "));
    let occurrences = haystack.matches(' ').count();
    assert_eq!(pieces.len(), occurrences + 1);
}

#[test]
fn haystack_ending_with_literal_yields_trailing_empty() {
    let pieces = collect_pieces(StrSplit::new("ab::cd::", "::"));
    assert_eq!(pieces.last(), Some(&""));
}
