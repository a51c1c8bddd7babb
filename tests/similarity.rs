use pii_masker::category::Category;
use pii_masker::error::MaskerError;
use pii_masker::pool::generate_fake_words_pool;
use pii_masker::similarity::{
    classify_word, rank_by_scores, sample_similar_word_for_category, similarity_from_distance,
    similarity_score, FakeWordPool, SIMILARITY_SCALE,
};

const CONCRETE: [Category; 11] = [
    Category::Name,
    Category::FirstName,
    Category::LastName,
    Category::Email,
    Category::Address,
    Category::Ssn,
    Category::City,
    Category::PhoneNumber,
    Category::CreditCard,
    Category::ZipCode,
    Category::PositiveDecimal,
];

fn row(words: &[&str]) -> Vec<String> {
    words.iter().map(|w| w.to_string()).collect()
}

fn small_pool() -> FakeWordPool {
    CONCRETE
        .iter()
        .map(|c| {
            let words: Vec<String> = match c {
                Category::Name => row(&["Ada Lovelace", "Alan Turing"]),
                Category::FirstName => row(&["Jane", "Johan", "Bob", "John"]),
                Category::LastName => row(&["Dow", "Smith", "Roe"]),
                Category::Email => row(&["jane@example.com", "bob@example.org"]),
                Category::Address => row(&["12 Main St", "5 Oak Ave"]),
                Category::Ssn => row(&["987-65-4321", "555-12-3456"]),
                Category::City => row(&["Springfield", "Oslo"]),
                Category::PhoneNumber => row(&["212-555-0100", "(415) 555 0199"]),
                Category::CreditCard => row(&["4111111111111111"]),
                Category::ZipCode => row(&["90210", "10001"]),
                _ => row(&["1234.56"]),
            };
            (*c, words)
        })
        .collect()
}

#[test]
fn test_sample_similar_word_for_category() {
    let generated_pool = generate_fake_words_pool(10000);
    let word = "John".to_string();
    let result =
        sample_similar_word_for_category(&word, Category::FirstName, &generated_pool, 5).unwrap();
    assert_eq!(result.iter().filter(|x| **x == word).count(), 0);
    assert_eq!(result.len() > 0, true);
}

#[test]
fn test_classify_word() {
    let generated_pool = generate_fake_words_pool(10000);
    let word = "susan@gmail.com".to_string();
    let result = classify_word(&word, &generated_pool, 5);
    assert_eq!(result.is_err(), false);
    assert_eq!(result.as_ref().unwrap().category, Category::Email);
    assert_eq!(
        result
            .as_ref()
            .unwrap()
            .similar
            .iter()
            .filter(|x| **x == word)
            .count(),
        0
    );
    assert_eq!(result.as_ref().unwrap().similar.len() > 0, true);
}

#[test]
fn similarity_score_values() {
    assert_eq!(similarity_score("kitten", "sitting"), 571428);
    assert_eq!(similarity_score("", ""), SIMILARITY_SCALE);
    assert_eq!(similarity_score("abc", "abc"), SIMILARITY_SCALE);
    assert_eq!(similarity_score("", "second"), 0);
    assert_eq!(similarity_score("ab", "ac"), 500000);
}

#[test]
fn sample_similar_ranks_best_first_and_skips_word() {
    let pool = small_pool();
    let r = sample_similar_word_for_category("John", Category::FirstName, &pool, 2).unwrap();
    assert_eq!(r, vec!["Johan".to_string(), "Jane".to_string()]);
    let all = sample_similar_word_for_category("John", Category::FirstName, &pool, 10).unwrap();
    assert_eq!(all.len(), 3);
    assert!(!all.contains(&"John".to_string()));
}

#[test]
fn sample_similar_ties_keep_pool_order() {
    let pool = small_pool();
    let r = sample_similar_word_for_category("Doe", Category::LastName, &pool, 2).unwrap();
    assert_eq!(r, vec!["Dow".to_string(), "Roe".to_string()]);
}

#[test]
fn sample_similar_errors() {
    let pool = small_pool();
    assert!(matches!(
        sample_similar_word_for_category("John", Category::FirstName, &pool, 0),
        Err(MaskerError::SimilarityError(_))
    ));
    let empty: FakeWordPool = Vec::new();
    assert!(matches!(
        sample_similar_word_for_category("John", Category::FirstName, &empty, 1),
        Err(MaskerError::SimilarityError(_))
    ));
    let blank: FakeWordPool = vec![(Category::FirstName, Vec::new())];
    assert!(matches!(
        sample_similar_word_for_category("John", Category::FirstName, &blank, 1),
        Err(MaskerError::SimilarityError(_))
    ));
}

#[test]
fn sample_similar_inferred_uses_classification() {
    let pool = small_pool();
    let r = sample_similar_word_for_category("987-65-4320", Category::Inferred, &pool, 1).unwrap();
    assert_eq!(r, vec!["987-65-4321".to_string()]);
}

#[test]
fn classify_small_pool() {
    let pool = small_pool();
    let c = classify_word("jane@example.net", &pool, 1).unwrap();
    assert_eq!(c.category, Category::Email);
    assert_eq!(c.similar, vec!["jane@example.com".to_string()]);
    let p = classify_word("310-444-2211", &pool, 2).unwrap();
    assert_ne!(p.category, Category::Inferred);
}

#[test]
fn classify_is_deterministic() {
    let pool = small_pool();
    let a = classify_word("Springfeld", &pool, 2).unwrap();
    let b = classify_word("Springfeld", &pool, 2).unwrap();
    assert_eq!(a.category, Category::City);
    assert_eq!(a.category, b.category);
    assert_eq!(a.similar, b.similar);
}

#[test]
fn classify_errors() {
    let pool = small_pool();
    assert!(matches!(classify_word("x", &pool, 0), Err(MaskerError::SimilarityError(_))));
    let partial: FakeWordPool = vec![(Category::Name, row(&["Ada"]))];
    assert!(matches!(classify_word("x", &partial, 1), Err(MaskerError::SimilarityError(_))));
    let mut only_word = small_pool();
    only_word[10].1 = row(&["x"]);
    assert!(matches!(classify_word("x", &only_word, 1), Err(MaskerError::SimilarityError(_))));
}

#[test]
fn generated_pool_shape() {
    let pool = generate_fake_words_pool(3);
    assert_eq!(pool.len(), 11);
    for (i, (c, words)) in pool.iter().enumerate() {
        assert_eq!(*c, CONCRETE[i]);
        assert_eq!(words.len(), 3);
    }
}

#[test]
fn similarity_from_distance_values() {
    assert_eq!(similarity_from_distance(3, 7), 571428);
    assert_eq!(similarity_from_distance(0, 0), SIMILARITY_SCALE);
    assert_eq!(similarity_from_distance(0, 5), SIMILARITY_SCALE);
    assert_eq!(similarity_from_distance(5, 5), 0);
    assert_eq!(similarity_from_distance(9, 5), 0);
    assert_eq!(similarity_from_distance(1, 3), 666666);
}

#[test]
fn rank_by_scores_orders_and_excludes() {
    let samples = row(&["a", "b", "c", "d"]);
    let word = "b".to_string();
    assert_eq!(rank_by_scores(&word, &samples, &vec![5, 9, 5, 7], 2), vec![3, 0]);
    assert_eq!(rank_by_scores(&word, &samples, &vec![5, 9, 5, 7], 10), vec![3, 0, 2]);
    assert_eq!(rank_by_scores(&word, &samples, &vec![5, 9, 5, 7], 0), Vec::<usize>::new());
    let same = row(&["b", "b"]);
    assert_eq!(rank_by_scores(&word, &same, &vec![1, 2], 3), Vec::<usize>::new());
}

#[test]
fn sample_similar_skips_repeated_strings() {
    let mut pool = small_pool();
    pool[1].1 = row(&["Jane", "Jane", "Mary", "John"]);
    let r = sample_similar_word_for_category("John", Category::FirstName, &pool, 2).unwrap();
    assert_eq!(r, vec!["Jane".to_string(), "Mary".to_string()]);
    let all = sample_similar_word_for_category("John", Category::FirstName, &pool, 10).unwrap();
    assert_eq!(all, vec!["Jane".to_string(), "Mary".to_string()]);
    let samples = row(&["a", "a", "c"]);
    assert_eq!(rank_by_scores(&"b".to_string(), &samples, &vec![4, 4, 1], 3), vec![0, 2]);
}
