use fragment::matching::{find, similarity, Match, Score};

fn as_f64(s: Score) -> f64 {
    s.num as f64 / s.den as f64
}

#[test]
fn matching_find_returns_a_correctly_ordered_set_of_results() {
    let haystack = vec!["src/fragment.rs", "lib/fragments.rs"];
    let expected_results = vec!["src/fragment.rs", "lib/fragments.rs"];
    let results = find("frag", &haystack, 2, true);
    for i in 0..2 {
        assert_eq!(*results[i].object(), expected_results[i]);
    }
}

#[test]
fn matching_find_returns_a_correctly_limited_set_of_results() {
    let haystack = vec!["src/fragment.rs", "lib/fragments.rs"];
    let results = find("fragment", &haystack, 1, true);
    assert_eq!(results.len(), 1);
}

#[test]
fn matching_find_drops_zero_value_results() {
    let haystack = vec!["src/fragment.rs", "lib/fragments.rs", "Fragfile"];
    let results = find("z", &haystack, 3, true);
    assert_eq!(results.len(), 0);
}

#[test]
fn matching_similarity_scores_correctly_when_there_are_no_similarities() {
    assert_eq!(as_f64(similarity("frag", "ment")), 0.0);
}

#[test]
fn matching_similarity_scores_correctly_when_there_is_an_exact_match() {
    assert_eq!(as_f64(similarity("fragment", "fragment")), 1.0);
}

#[test]
fn matching_similarity_scores_correctly_when_there_is_a_half_match() {
    assert_eq!(as_f64(similarity("frag", "fragment")), 0.5);
}

#[test]
fn matching_similarity_sums_term_matches() {
    assert_eq!(as_f64(similarity("frag ment", "fragment")), 1.0);
}

#[test]
fn matching_similarity_limits_score_to_1() {
    assert_eq!(as_f64(similarity("lol", "lololol")), 1.0);
}

#[test]
fn matching_similarity_returns_zero_when_there_are_unmatched_terms() {
    assert_eq!(as_f64(similarity("fg ment", "fragment")), 0.0);
}

#[test]
fn mod_find_returns_a_correctly_ordered_set_of_results() {
    let haystack = vec!["src/fragment.rs".to_string(), "lib/fragments.rs".to_string()];
    let expected_results = vec!["src/fragment.rs", "lib/fragments.rs"];
    {
        let results = find("frag", &haystack, 2, true);
        for i in 0..2 {
            assert_eq!(*results[i].object(), expected_results[i]);
        }
    }
    println!("{}", haystack[0]);
}

#[test]
fn mod_find_returns_a_correctly_limited_set_of_results() {
    let haystack = vec!["src/fragment.rs".to_string(), "lib/fragments.rs".to_string()];
    let results = find("fragment", &haystack, 1, true);
    assert_eq!(results.len(), 1);
}

#[test]
fn mod_find_drops_zero_value_results() {
    let haystack = vec![
        "src/fragment.rs".to_string(),
        "lib/fragments.rs".to_string(),
        "Fragfile".to_string(),
    ];
    let results = find("z", &haystack, 3, true);
    assert_eq!(results.len(), 0);
}

#[test]
fn mod_similarity_scores_correctly_when_there_are_no_similarities() {
    assert_eq!(as_f64(similarity("frag", "ment")), 0.0);
}

#[test]
fn mod_similarity_scores_correctly_when_there_is_an_exact_match() {
    assert_eq!(as_f64(similarity("fragment", "fragment")), 1.0);
}

#[test]
fn mod_similarity_scores_correctly_when_there_is_a_half_match() {
    assert_eq!(as_f64(similarity("frag", "fragment")), 0.5);
}

#[test]
fn mod_similarity_sums_term_matches() {
    assert_eq!(as_f64(similarity("frag ment", "fragment")), 1.0);
}

#[test]
fn mod_similarity_limits_score_to_1() {
    assert_eq!(as_f64(similarity("lol", "lololol")), 1.0);
}

#[test]
fn mod_similarity_returns_zero_when_there_are_unmatched_terms() {
    assert_eq!(as_f64(similarity("fg ment", "fragment")), 0.0);
}

#[test]
fn similarity_score_is_an_exact_fraction() {
    let s = similarity("frag", "fragment");
    assert_eq!(s.num, 4);
    assert_eq!(s.den, 8);
}

#[test]
fn similarity_counts_every_occurrence() {
    // "ab" occurs twice in "abab": 2 * 2 / 4 = 1.0.
    assert_eq!(as_f64(similarity("ab", "abab")), 1.0);
    // "a" occurs twice in "abab": 2 * 1 / 4 = 0.5.
    assert_eq!(as_f64(similarity("a", "abab")), 0.5);
}

#[test]
fn similarity_empty_candidate_scores_zero() {
    assert_eq!(as_f64(similarity("frag", "")), 0.0);
    assert_eq!(as_f64(similarity("", "")), 0.0);
}

#[test]
fn similarity_empty_query_scores_zero() {
    assert_eq!(as_f64(similarity("", "fragment")), 0.0);
}

#[test]
fn similarity_skips_consecutive_spaces() {
    assert_eq!(as_f64(similarity("frag  ment", "fragment")), 1.0);
    assert_eq!(as_f64(similarity(" frag ", "fragment")), 0.5);
}

#[test]
fn similarity_is_case_sensitive() {
    assert_eq!(as_f64(similarity("frag", "FRAGMENT")), 0.0);
}

#[test]
fn find_is_case_insensitive_when_asked() {
    let haystack = vec!["src/Fragment.rs"];
    let results = find("src/fragment.rs", &haystack, 3, false);
    assert_eq!(results.len(), 1);
    assert_eq!(as_f64(results[0].score), 1.0);
    assert_eq!(*results[0].object(), "src/Fragment.rs");
}

#[test]
fn find_lowercases_the_needle_too() {
    let haystack = vec!["fragment"];
    let results = find("FRAG", &haystack, 1, false);
    assert_eq!(results.len(), 1);
    assert_eq!(as_f64(results[0].score), 0.5);
}

#[test]
fn find_with_zero_budget_returns_nothing() {
    let haystack = vec!["fragment"];
    let results = find("frag", &haystack, 0, true);
    assert_eq!(results.len(), 0);
}

#[test]
fn find_sorts_by_descending_score() {
    // "frag" covers 4/8 of "fragment", 4/16 of "fragment-browser".
    let haystack = vec!["fragment-browser", "fragment"];
    let results = find("frag", &haystack, 5, true);
    assert_eq!(results.len(), 2);
    assert_eq!(*results[0].object(), "fragment");
    assert_eq!(*results[1].object(), "fragment-browser");
    assert!(as_f64(results[0].score) > as_f64(results[1].score));
}

#[test]
fn find_keeps_original_order_on_ties() {
    // All three candidates score 2/3.
    let haystack = vec!["abx", "aby", "abz"];
    let results = find("ab", &haystack, 3, true);
    assert_eq!(results.len(), 3);
    assert_eq!(*results[0].object(), "abx");
    assert_eq!(*results[1].object(), "aby");
    assert_eq!(*results[2].object(), "abz");
}

#[test]
fn find_equal_fractions_tie_even_with_different_denominators() {
    // 1/2 and 2/4 are the same score, so the earlier candidate stays first.
    let haystack = vec!["abab", "ab"];
    let results = find("a", &haystack, 2, true);
    assert_eq!(results.len(), 2);
    assert_eq!(*results[0].object(), "abab");
    assert_eq!(*results[1].object(), "ab");
}

#[test]
fn find_is_idempotent() {
    let haystack = vec!["src/fragment.rs".to_string(), "lib/fragments.rs".to_string()];
    let first = find("frag", &haystack, 2, true);
    let second = find("frag", &haystack, 2, true);
    assert_eq!(first.len(), second.len());
    for i in 0..first.len() {
        assert_eq!(first[i].object(), second[i].object());
        assert_eq!(first[i].score, second[i].score);
    }
}

#[test]
fn find_borrows_or_clones_candidates() {
    let owned = vec!["fragment".to_string()];
    let owned_results = find("frag", &owned, 1, true);
    assert_eq!(*owned_results[0].object(), "fragment");
    let borrowed: Vec<&String> = owned.iter().collect();
    let borrowed_results = find("frag", &borrowed, 1, true);
    assert_eq!(**borrowed_results[0].object(), "fragment");
}

#[test]
fn match_exposes_object_and_score() {
    let m = Match::new("fragment", Score { num: 1, den: 2 });
    assert_eq!(*m.object(), "fragment");
    assert_eq!(m.score, Score { num: 1, den: 2 });
}
