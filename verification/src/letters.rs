//! Letters: the user-perceived characters of a text, and repeats among them.

use unicode_segmentation::UnicodeSegmentation;
use vstd::prelude::*;

verus! {

/// The characters of one letter.
pub type Letter = Seq<char>;

/// The extended grapheme clusters of `text`, in order, as the Unicode
/// segmentation rules delimit them.
pub uninterp spec fn grapheme_clusters(text: Seq<char>) -> Seq<Seq<char>>;

/// Splits `text` into its letters.
///
/// Trusted: `UnicodeSegmentation::graphemes` of the `unicode-segmentation`
/// crate, asked for extended clusters. Its result is named
/// [`grapheme_clusters`]. The iterator hands out consecutive slices of the
/// text from its start to its end, each at least one character long; hence
/// the two further clauses.
#[verifier::external_body]
pub(crate) fn split_graphemes(text: &str) -> (letters: Vec<String>)
    ensures
        letters.deep_view() == grapheme_clusters(text@),
        forall|i: int| 0 <= i < letters.len() ==> (#[trigger] letters[i])@.len() > 0,
        letters.deep_view().flatten() == text@,
{
    text.graphemes(true).map(|cluster| cluster.to_string()).collect()
}

/// Pieces that each hold a character are no more than the characters of
/// their concatenation.
pub proof fn lemma_pieces_within_length(pieces: Seq<Seq<char>>)
    requires
        forall|i: int| 0 <= i < pieces.len() ==> (#[trigger] pieces[i]).len() > 0,
    ensures
        pieces.len() <= pieces.flatten().len(),
    decreases pieces.len(),
{
    if pieces.len() > 0 {
        let rest = pieces.drop_first();
        assert forall|i: int| 0 <= i < rest.len() implies (#[trigger] rest[i]).len() > 0 by {
            assert(rest[i] == pieces[i + 1]);
        }
        lemma_pieces_within_length(rest);
    }
}

/// Whether some letter stands at two places of `word`.
pub open spec fn has_repeat(word: Seq<Letter>) -> bool {
    !word.no_duplicates()
}

/// Tells whether some letter occurs twice among `chars`.
pub fn has_doubles_graphemes(chars: &Vec<String>) -> (found: bool)
    ensures
        found == has_repeat(chars.deep_view()),
{
    let n = chars.len();
    let mut i: usize = 0;
    while i < n
        invariant
            n == chars.len(),
            i <= n,
            forall|a: int, b: int|
                0 <= a < i && a < b < n ==> chars.deep_view()[a] != chars.deep_view()[b],
        decreases n - i,
    {
        let mut j: usize = i + 1;
        while j < n
            invariant
                n == chars.len(),
                i < j <= n,
                forall|a: int, b: int|
                    0 <= a < i && a < b < n ==> chars.deep_view()[a] != chars.deep_view()[b],
                forall|b: int| i < b < j ==> chars.deep_view()[i as int] != chars.deep_view()[b],
            decreases n - j,
        {
            if chars[i] == chars[j] {
                assert(chars.deep_view()[i as int] == chars.deep_view()[j as int]);
                return true;
            }
            j += 1;
        }
        i += 1;
    }
    assert forall|a: int, b: int|
        0 <= a < n && 0 <= b < n && a != b implies chars.deep_view()[a] != chars.deep_view()[b] by {
        if b < a {
            assert(chars.deep_view()[b] != chars.deep_view()[a]);
        }
    }
    false
}

/// Tells whether some letter occurs twice in `word`.
pub fn has_doubles(word: &str) -> (found: bool)
    ensures
        found == has_repeat(grapheme_clusters(word@)),
{
    let letters = split_graphemes(word);
    has_doubles_graphemes(&letters)
}

} // verus!
