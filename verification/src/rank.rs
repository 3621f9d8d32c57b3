//! Scoring every candidate against the whole pool, and ranking by the scores.

use crate::letters::{grapheme_clusters, lemma_pieces_within_length, split_graphemes, Letter};
use crate::order::{
    arranged, numbers, positions, ranked, ranking, ranking_is_by_falling_score,
    ranked_keeps_distinct, ranked_keeps_items, ranking_lists_each_position_once,
    ranking_of_falling_scores_is_identity, ranking_order, ranks_before, sum_of_prefix, total,
    total_of_ranked,
};
use crate::score::{calculate_score_graphemes, lemma_score_of_prefix_bound, pairwise_score};
use vstd::prelude::*;

verus! {

/// The score of `word` against each word of `pool`, by position.
pub open spec fn scores_against(word: Seq<Letter>, pool: Seq<Seq<Letter>>) -> Seq<nat> {
    Seq::new(pool.len(), |j: int| pairwise_score(word, pool[j]))
}

/// The aggregate score of `word` in `pool`: the sum of its scores against
/// every word of the pool, itself included where it is one of them.
pub open spec fn aggregate_score(word: Seq<Letter>, pool: Seq<Seq<Letter>>) -> nat {
    total(scores_against(word, pool))
}

/// The aggregate score of each word of `pool`, by position.
pub open spec fn score_map(pool: Seq<Seq<Letter>>) -> Seq<nat> {
    Seq::new(pool.len(), |i: int| aggregate_score(pool[i], pool))
}

/// The letters of each text of `pool`, by position.
pub open spec fn letters_of_all(pool: Seq<Seq<char>>) -> Seq<Seq<Letter>> {
    Seq::new(pool.len(), |i: int| grapheme_clusters(pool[i]))
}

/// Whether the aggregate scores of a pool whose words have these sizes are
/// sure to fit in 32 bits: no word can earn more than three points per
/// letter against each word of the pool.
pub open spec fn scores_fit<T>(pool: Seq<Seq<T>>) -> bool {
    forall|i: int| 0 <= i < pool.len() ==> 3 * (#[trigger] pool[i]).len() * pool.len() <= u32::MAX
}

/// The aggregate score that the text `word` has in the pool of texts
/// `pool`, both read by their letters.
pub open spec fn score_in_pool(word: Seq<char>, pool: Seq<Seq<char>>) -> nat {
    aggregate_score(grapheme_clusters(word), letters_of_all(pool))
}

/// A pool of texts in ranking order, each text scored by its letters
/// against the letters of all.
pub open spec fn ranked_by_score(pool: Seq<Seq<char>>) -> Seq<Seq<char>> {
    ranked(pool, score_map(letters_of_all(pool)))
}

proof fn lemma_aggregate_of_prefix_bound(word: Seq<Letter>, pool: Seq<Seq<Letter>>, count: nat)
    requires
        count <= pool.len(),
    ensures
        sum_of_prefix(scores_against(word, pool), count) <= 3 * word.len() * count,
    decreases count,
{
    if count > 0 {
        let before = (count - 1) as nat;
        lemma_aggregate_of_prefix_bound(word, pool, before);
        lemma_score_of_prefix_bound(word, pool[count - 1], word.len());
        assert(3 * word.len() * before + 3 * word.len() == 3 * word.len() * count)
            by (nonlinear_arith)
            requires
                before + 1 == count,
        ;
    }
}

/// Computes the aggregate score of each word of a pool given by its
/// letters.
pub fn calc_score_map_graphemes(words: &Vec<Vec<String>>) -> (scores: Vec<u32>)
    requires
        scores_fit(words.deep_view()),
    ensures
        numbers(scores@) == score_map(words.deep_view()),
{
    let ghost pool = words.deep_view();
    let n = words.len();
    let mut scores: Vec<u32> = Vec::new();
    let mut i: usize = 0;
    while i < n
        invariant
            pool == words.deep_view(),
            n == words.len(),
            scores_fit(pool),
            i <= n,
            scores.len() == i,
            forall|k: int| 0 <= k < i ==> scores[k] == aggregate_score(pool[k], pool),
        decreases n - i,
    {
        let current_word = &words[i];
        let ghost word = pool[i as int];
        assert(word == current_word.deep_view());
        let mut word_score: u32 = 0;
        let mut j: usize = 0;
        while j < n
            invariant
                pool == words.deep_view(),
                n == words.len(),
                word == current_word.deep_view(),
                3 * word.len() * n <= u32::MAX,
                j <= n,
                word_score == sum_of_prefix(scores_against(word, pool), j as nat),
            decreases n - j,
        {
            proof {
                lemma_aggregate_of_prefix_bound(word, pool, (j + 1) as nat);
                assert(3 * word.len() * (j + 1) <= 3 * word.len() * n) by (nonlinear_arith)
                    requires
                        j + 1 <= n,
                ;
                assert(3 * word.len() <= 3 * word.len() * n) by (nonlinear_arith)
                    requires
                        1 <= n,
                ;
                assert(pool[j as int] == words[j as int].deep_view());
            }
            let score = calculate_score_graphemes(current_word, &words[j]);
            word_score = word_score + score;
            j += 1;
        }
        scores.push(word_score);
        i += 1;
    }
    assert(numbers(scores@) =~= score_map(pool));
    scores
}

/// Splits each text of a pool into its letters.
fn split_all(words: &Vec<String>) -> (letters: Vec<Vec<String>>)
    ensures
        letters.deep_view() == letters_of_all(words.deep_view()),
        scores_fit(words.deep_view()) ==> scores_fit(letters.deep_view()),
{
    let n = words.len();
    let mut letters: Vec<Vec<String>> = Vec::new();
    let mut i: usize = 0;
    while i < n
        invariant
            n == words.len(),
            i <= n,
            letters.len() == i,
            forall|k: int|
                0 <= k < i ==> (#[trigger] letters[k]).deep_view() == grapheme_clusters(
                    words[k]@,
                ) && letters[k].len() <= words[k]@.len(),
        decreases n - i,
    {
        let split = split_graphemes(words[i].as_str());
        proof {
            lemma_pieces_within_length(split.deep_view());
        }
        letters.push(split);
        i += 1;
    }
    assert(letters.deep_view() =~= letters_of_all(words.deep_view()));
    assert(scores_fit(words.deep_view()) ==> scores_fit(letters.deep_view())) by {
        if scores_fit(words.deep_view()) {
            assert forall|k: int| 0 <= k < n implies 3 * (#[trigger] letters.deep_view()[k]).len()
                * n <= u32::MAX by {
                let short = letters[k].len();
                let long = words.deep_view()[k].len();
                assert(3 * short * n <= 3 * long * n) by (nonlinear_arith)
                    requires
                        short <= long,
                ;
            }
        }
    }
    letters
}

/// Computes the aggregate score of each word of `words`, by position.
pub fn calc_score_map(words: &Vec<String>) -> (scores: Vec<u32>)
    requires
        scores_fit(words.deep_view()),
    ensures
        numbers(scores@) == score_map(letters_of_all(words.deep_view())),
{
    let letters = split_all(words);
    calc_score_map_graphemes(&letters)
}

/// Ranking only reorders a pool: the ranked pool is as long and holds the
/// same words as often. So its scores fit where the pool's did, and no
/// word stands twice in it where none did in the pool.
pub proof fn ranked_pool_holds_same_words(pool: Seq<Seq<char>>)
    ensures
        ranked_by_score(pool).len() == pool.len(),
        ranked_by_score(pool).to_multiset() == pool.to_multiset(),
        scores_fit(pool) ==> scores_fit(ranked_by_score(pool)),
        pool.no_duplicates() ==> ranked_by_score(pool).no_duplicates(),
{
    let scores = score_map(letters_of_all(pool));
    ranking_lists_each_position_once(scores);
    ranked_keeps_items(pool, scores);
    if pool.no_duplicates() {
        ranked_keeps_distinct(pool, scores);
    }
}

/// In a ranked pool no word has a lower aggregate score than a word
/// behind it.
pub proof fn ranked_pool_is_by_falling_score(pool: Seq<Seq<char>>)
    ensures
        forall|k: int, l: int|
            0 <= k <= l < pool.len() ==> score_in_pool(#[trigger] ranked_by_score(pool)[k], pool)
                >= score_in_pool(#[trigger] ranked_by_score(pool)[l], pool),
{
    let scores = score_map(letters_of_all(pool));
    let order = ranking(scores);
    ranking_lists_each_position_once(scores);
    ranking_is_by_falling_score(scores);
    assert forall|k: int, l: int| 0 <= k <= l < pool.len() implies score_in_pool(
        #[trigger] ranked_by_score(pool)[k],
        pool,
    ) >= score_in_pool(#[trigger] ranked_by_score(pool)[l], pool) by {
        assert(score_in_pool(ranked_by_score(pool)[k], pool) == scores[order[k]]);
        assert(score_in_pool(ranked_by_score(pool)[l], pool) == scores[order[l]]);
        if k < l {
            assert(ranks_before(scores, order[k], order[l]));
        }
    }
}

/// Puts `words` in ranking order: by falling aggregate score, words of
/// equal score in the order in which they stood. The words are the same
/// as before, each as often.
pub fn sort_list_by_score(words: &mut Vec<String>)
    requires
        scores_fit(old(words).deep_view()),
    ensures
        final(words).deep_view() == ranked_by_score(old(words).deep_view()),
        final(words).len() == old(words).len(),
        final(words).deep_view().to_multiset() == old(words).deep_view().to_multiset(),
        forall|k: int, l: int|
            0 <= k <= l < final(words).len() ==> score_in_pool(
                #[trigger] final(words).deep_view()[k],
                old(words).deep_view(),
            ) >= score_in_pool(#[trigger] final(words).deep_view()[l], old(words).deep_view()),
{
    let scores = calc_score_map(words);
    let order = ranking_order(&scores);
    let ghost pool = words.deep_view();
    let ghost wanted = ranked_by_score(pool);
    proof {
        ranked_pool_holds_same_words(pool);
        ranked_pool_is_by_falling_score(pool);
    }
    let mut sorted: Vec<String> = Vec::new();
    let mut k: usize = 0;
    while k < order.len()
        invariant
            pool == words.deep_view(),
            wanted == arranged(pool, positions(order@)),
            order.len() == words.len(),
            forall|l: int| 0 <= l < order.len() ==> (#[trigger] order[l]) < words.len(),
            k <= order.len(),
            sorted.len() == k,
            forall|l: int| 0 <= l < k ==> (#[trigger] sorted[l])@ == wanted[l],
        decreases order.len() - k,
    {
        sorted.push(words[order[k]].clone());
        k += 1;
    }
    assert(sorted.deep_view() =~= wanted);
    *words = sorted;
}

/// Ranking a ranked pool again leaves it as it is.
pub proof fn ranking_twice_changes_nothing(pool: Seq<Seq<char>>)
    ensures
        ranked_by_score(ranked_by_score(pool)) == ranked_by_score(pool),
{
    let letters = letters_of_all(pool);
    let scores = score_map(letters);
    let order = ranking(scores);
    let once = ranked_by_score(pool);
    ranking_lists_each_position_once(scores);
    ranking_is_by_falling_score(scores);
    let again = score_map(letters_of_all(once));
    assert(letters_of_all(once) =~= ranked(letters, scores));
    assert forall|k: int| 0 <= k < once.len() implies #[trigger] again[k] == scores[order[k]] by {
        let word = letters[order[k]];
        assert(scores_against(word, ranked(letters, scores)) =~= ranked(
            scores_against(word, letters),
            scores,
        ));
        total_of_ranked(scores_against(word, letters), scores);
    }
    assert forall|k: int, l: int| 0 <= k < l < again.len() implies again[k] >= again[l] by {
        assert(ranks_before(scores, order[k], order[l]));
    }
    ranking_of_falling_scores_is_identity(again);
    assert(ranked(once, again) =~= once);
}

} // verus!
