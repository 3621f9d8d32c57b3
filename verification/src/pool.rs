//! The candidate pool: loading it from a word list and narrowing it down.

use crate::letters::{grapheme_clusters, split_graphemes};
use crate::matching::{contains_letter, satisfies, word_matches_requirements};
use crate::rank::scores_fit;
use crate::requirement::{constraints, Constraint, Requirement, WORD_LENGTH};
use vstd::prelude::*;

verus! {

/// Trusted: `String::push` of the standard library, which appends the
/// character to the end of the string.
pub assume_specification[ String::push ](text: &mut String, c: char)
    ensures
        final(text)@ == old(text)@.push(c),
;

/// The lines of `text`: the pieces between its line feeds, so one more
/// than there are line feeds.
pub open spec fn lines(text: Seq<char>) -> Seq<Seq<char>>
    decreases text.len(),
{
    if text.len() == 0 {
        seq![Seq::empty()]
    } else {
        let before = lines(text.drop_last());
        if text.last() == '\n' {
            before.push(Seq::empty())
        } else {
            before.drop_last().push(before.last().push(text.last()))
        }
    }
}

/// No line holds a line feed, and there is one line more than there are
/// line feeds in the text.
pub proof fn lines_end_at_line_feeds(text: Seq<char>)
    ensures
        forall|k: int| 0 <= k < lines(text).len() ==> !(#[trigger] lines(text)[k]).contains('\n'),
        lines(text).len() == text.filter(|c: char| c == '\n').len() + 1,
    decreases text.len(),
{
    reveal(Seq::filter);
    if text.len() > 0 {
        lines_end_at_line_feeds(text.drop_last());
        let before = lines(text.drop_last());
        let now = lines(text);
        assert forall|k: int| 0 <= k < now.len() implies !(#[trigger] now[k]).contains('\n') by {
            if k < before.len() - 1 {
                assert(now[k] == before[k]);
            } else if text.last() != '\n' {
                let grown = before.last().push(text.last());
                assert(now[k] == grown);
                if grown.contains('\n') {
                    let at = choose|at: int| 0 <= at < grown.len() && grown[at] == '\n';
                    assert(before.last()[at] == '\n');
                }
            } else if k < before.len() {
                assert(now[k] == before[k]);
            }
        }
    }
}

/// Splits `text` at its line feeds.
pub fn split_lines(text: &str) -> (pieces: Vec<String>)
    ensures
        pieces.deep_view() == lines(text@),
{
    let mut pieces: Vec<String> = Vec::new();
    let mut current = String::new();
    assert(text@.take(0) =~= Seq::empty());
    for c in walk: text.chars()
        invariant
            walk.seq() == text@,
            pieces.deep_view().push(current@) == lines(text@.take(walk.index() as int)),
    {
        proof {
            let read = walk.index() as int;
            assert(text@.take(read + 1).drop_last() =~= text@.take(read));
            assert(pieces.deep_view().push(current@).drop_last() =~= pieces.deep_view());
        }
        if c == '\n' {
            let ghost before = pieces.deep_view().push(current@);
            pieces.push(current);
            assert(pieces.deep_view() =~= before);
            current = String::new();
        } else {
            current.push(c);
        }
    }
    let ghost all = pieces.deep_view().push(current@);
    pieces.push(current);
    assert(pieces.deep_view() =~= all);
    assert(text@.take(text@.len() as int) =~= text@);
    pieces
}

/// Whether `text` has the five letters of a word.
pub open spec fn is_word(text: Seq<char>) -> bool {
    grapheme_clusters(text).len() == WORD_LENGTH
}

/// Those of `texts` that are words, in their order.
pub open spec fn only_words(texts: Seq<Seq<char>>) -> Seq<Seq<char>> {
    texts.filter(|text: Seq<char>| is_word(text))
}

/// The items of a list without those that stood in it before.
pub open spec fn without_repeats<T>(items: Seq<T>) -> Seq<T>
    decreases items.len(),
{
    if items.len() == 0 {
        items
    } else {
        let before = without_repeats(items.drop_last());
        if before.contains(items.last()) {
            before
        } else {
            before.push(items.last())
        }
    }
}

/// The words that `text` lists, one to a line. A line that has not five
/// letters, such as the empty one behind a final line feed, is left out,
/// and so is a line that repeats an earlier one.
pub open spec fn word_list(text: Seq<char>) -> Seq<Seq<char>> {
    without_repeats(only_words(lines(text)))
}

/// A list without its repeats holds every item of the list, each once.
pub proof fn without_repeats_holds_each_once<T>(items: Seq<T>)
    ensures
        without_repeats(items).no_duplicates(),
        forall|item: T|
            #![trigger without_repeats(items).contains(item)]
            #![trigger items.contains(item)]
            without_repeats(items).contains(item) <==> items.contains(item),
    decreases items.len(),
{
    if items.len() > 0 {
        let shorter = items.drop_last();
        without_repeats_holds_each_once(shorter);
        let before = without_repeats(shorter);
        let now = without_repeats(items);
        assert forall|item: T|
            #![trigger now.contains(item)]
            #![trigger items.contains(item)]
            now.contains(item) <==> items.contains(item) by {
            assert(before.contains(item) <==> shorter.contains(item));
            if now.contains(item) {
                let at = choose|at: int| 0 <= at < now.len() && now[at] == item;
                if at < before.len() {
                    assert(before.contains(item));
                    let from = choose|from: int| 0 <= from < shorter.len() && shorter[from] == item;
                    assert(items[from] == item);
                } else {
                    assert(items[items.len() - 1] == item);
                }
            }
            if items.contains(item) {
                let from = choose|from: int| 0 <= from < items.len() && items[from] == item;
                if from < shorter.len() {
                    assert(shorter[from] == item);
                    assert(before.contains(item));
                    let at = choose|at: int| 0 <= at < before.len() && before[at] == item;
                    assert(now[at] == item);
                } else if before.contains(item) {
                    let at = choose|at: int| 0 <= at < before.len() && before[at] == item;
                    assert(now[at] == item);
                } else {
                    assert(now[now.len() - 1] == item);
                }
            }
        }
    }
}

/// Those words of `pool` that meet the round `set`, in their order.
pub open spec fn matching_words(pool: Seq<Seq<char>>, set: Seq<Constraint>) -> Seq<Seq<char>> {
    pool.filter(|word: Seq<char>| satisfies(grapheme_clusters(word), set))
}

/// Reads the pool of candidate words from a list that holds one word to a
/// line. No word stands twice in the pool.
pub fn create_word_list(text: &str) -> (words: Vec<String>)
    ensures
        words.deep_view() == word_list(text@),
        words.deep_view().no_duplicates(),
{
    let pieces = split_lines(text);
    let ghost texts = pieces.deep_view();
    let mut words: Vec<String> = Vec::new();
    let mut i: usize = 0;
    assert(texts.take(0) =~= Seq::empty());
    assert(words.deep_view() =~= without_repeats(only_words(texts.take(0)))) by {
        reveal(Seq::filter);
    }
    while i < pieces.len()
        invariant
            texts == pieces.deep_view(),
            i <= pieces.len(),
            words.deep_view() == without_repeats(only_words(texts.take(i as int))),
        decreases pieces.len() - i,
    {
        let piece = &pieces[i];
        let letters = split_graphemes(piece.as_str());
        proof {
            reveal(Seq::filter);
            assert(texts.take(i + 1).drop_last() =~= texts.take(i as int));
            assert(texts.take(i + 1).last() == piece@);
            let found = only_words(texts.take(i as int));
            assert(found.push(piece@).drop_last() =~= found);
        }
        if letters.len() == WORD_LENGTH && !contains_letter(&words, piece) {
            let ghost before = words.deep_view();
            words.push(piece.clone());
            assert(words.deep_view() =~= before.push(piece@));
        }
        i += 1;
    }
    proof {
        assert(texts.take(pieces.len() as int) =~= texts);
        without_repeats_holds_each_once(only_words(texts));
    }
    words
}

/// Narrowing never adds to a pool: what is kept is no longer than the
/// pool and holds only words of it. So its scores fit where the pool's
/// did, and no word stands twice in it where none did in the pool.
pub proof fn narrowed_pool_is_part_of_pool(pool: Seq<Seq<char>>, set: Seq<Constraint>)
    ensures
        matching_words(pool, set).len() <= pool.len(),
        forall|k: int|
            0 <= k < matching_words(pool, set).len() ==> pool.contains(
                #[trigger] matching_words(pool, set)[k],
            ),
        scores_fit(pool) ==> scores_fit(matching_words(pool, set)),
        pool.no_duplicates() ==> matching_words(pool, set).no_duplicates(),
{
    let keep = |word: Seq<char>| satisfies(grapheme_clusters(word), set);
    let kept = matching_words(pool, set);
    lemma_filter_is_part(pool, keep);
    if scores_fit(pool) {
        assert forall|k: int| 0 <= k < kept.len() implies 3 * (#[trigger] kept[k]).len()
            * kept.len() <= u32::MAX by {
            let at = choose|at: int| 0 <= at < pool.len() && pool[at] == kept[k];
            let size = pool[at].len();
            assert(3 * size * kept.len() <= 3 * size * pool.len()) by (nonlinear_arith)
                requires
                    kept.len() <= pool.len(),
            ;
        }
    }
    if pool.no_duplicates() {
        lemma_filter_keeps_distinct(pool, keep);
    }
}

/// What is kept of a list is no longer than the list and holds only
/// items of it.
proof fn lemma_filter_is_part<T>(items: Seq<T>, keep: spec_fn(T) -> bool)
    ensures
        items.filter(keep).len() <= items.len(),
        forall|k: int|
            0 <= k < items.filter(keep).len() ==> items.contains(#[trigger] items.filter(keep)[k]),
    decreases items.len(),
{
    reveal(Seq::filter);
    if items.len() > 0 {
        let shorter = items.drop_last();
        lemma_filter_is_part(shorter, keep);
        let kept = items.filter(keep);
        assert forall|k: int| 0 <= k < kept.len() implies items.contains(#[trigger] kept[k]) by {
            if k < shorter.filter(keep).len() {
                let found = choose|at: int|
                    0 <= at < shorter.len() && shorter[at] == shorter.filter(keep)[k];
                assert(items[found] == kept[k]);
            } else {
                assert(items[items.len() - 1] == kept[k]);
            }
        }
    }
}

/// What is kept of a list without repeats has no repeats.
proof fn lemma_filter_keeps_distinct<T>(items: Seq<T>, keep: spec_fn(T) -> bool)
    requires
        items.no_duplicates(),
    ensures
        items.filter(keep).no_duplicates(),
    decreases items.len(),
{
    reveal(Seq::filter);
    if items.len() > 0 {
        let shorter = items.drop_last();
        lemma_filter_keeps_distinct(shorter, keep);
        lemma_filter_is_part(shorter, keep);
        let kept = shorter.filter(keep);
        assert forall|k: int| 0 <= k < kept.len() implies kept[k] != items.last() by {
            let found = choose|at: int| 0 <= at < shorter.len() && shorter[at] == kept[k];
            assert(items[found] == kept[k]);
        }
    }
}

/// Keeps of `words` those that meet the five requirements of a round, in
/// their order.
pub fn retain_matching(words: &mut Vec<String>, requirements: &[Requirement; 5])
    ensures
        final(words).deep_view() == matching_words(
            old(words).deep_view(),
            constraints(requirements@),
        ),
        final(words).len() <= old(words).len(),
{
    let ghost pool = words.deep_view();
    let ghost set = constraints(requirements@);
    let mut kept: Vec<String> = Vec::new();
    let mut i: usize = 0;
    assert(pool.take(0) =~= Seq::empty());
    assert(kept.deep_view() =~= matching_words(pool.take(0), set)) by {
        reveal(Seq::filter);
    }
    while i < words.len()
        invariant
            pool == words.deep_view(),
            set == constraints(requirements@),
            i <= words.len(),
            kept.deep_view() == matching_words(pool.take(i as int), set),
        decreases words.len() - i,
    {
        proof {
            reveal(Seq::filter);
            assert(pool.take(i + 1).drop_last() =~= pool.take(i as int));
            assert(pool.take(i + 1).last() == words[i as int]@);
        }
        if word_matches_requirements(words[i].as_str(), requirements) {
            let ghost before = kept.deep_view();
            kept.push(words[i].clone());
            assert(kept.deep_view() =~= before.push(words[i as int]@));
        }
        i += 1;
    }
    proof {
        assert(pool.take(words.len() as int) =~= pool);
        narrowed_pool_is_part_of_pool(pool, set);
    }
    *words = kept;
}

/// The highest product of a word's size and the pool's size at which
/// three points for each still fit in 32 bits.
pub const SCORE_CAP: usize = 1431655765;

/// Tells whether the aggregate scores of `words` are sure to fit in 32
/// bits, as scoring and ranking ask.
pub fn scores_will_fit(words: &Vec<String>) -> (fit: bool)
    ensures
        fit == scores_fit(words.deep_view()),
{
    let n = words.len();
    let mut i: usize = 0;
    while i < n
        invariant
            n == words.len(),
            i <= n,
            forall|k: int|
                0 <= k < i ==> 3 * (#[trigger] words.deep_view()[k]).len() * n <= u32::MAX,
        decreases n - i,
    {
        let size = words[i].as_str().unicode_len();
        let fits = size == 0 || (n <= SCORE_CAP && size <= SCORE_CAP / n);
        proof {
            assert(words.deep_view()[i as int].len() == size);
            lemma_cap(size as int, n as int);
        }
        if !fits {
            return false;
        }
        i += 1;
    }
    true
}

/// Three points for each of `size` times `count` fit in 32 bits exactly
/// when `size` is at most the cap divided by `count`.
proof fn lemma_cap(size: int, count: int)
    requires
        0 <= size,
        0 < count,
    ensures
        3 * size * count <= u32::MAX <==> (size == 0 || (count <= SCORE_CAP && size <= SCORE_CAP
            / count as usize)),
{
    let cap = SCORE_CAP as int;
    assert(3 * size * count <= u32::MAX <==> size * count <= cap) by (nonlinear_arith)
        requires
            cap == 1431655765,
            u32::MAX == 4294967295,
    ;
    if size > 0 {
        if count > cap {
            assert(size * count >= count) by (nonlinear_arith)
                requires
                    size >= 1,
                    count > 0,
            ;
        } else {
            let quotient = cap / count;
            assert(quotient == SCORE_CAP / count as usize);
            assert(size * count <= cap <==> size <= quotient) by (nonlinear_arith)
                requires
                    quotient == cap / count,
                    count > 0,
                    size > 0,
                    cap >= 0,
            ;
        }
    }
}

} // verus!
