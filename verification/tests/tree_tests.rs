use emojicp::distance::{chars_of, levenshtein};
use emojicp::pair::EmojiPair;
use emojicp::tree::BkTree;

fn pair(description: &str, emoji: &str) -> EmojiPair {
    EmojiPair {
        description: String::from(description),
        emoji: String::from(emoji),
    }
}

fn sample_dictionary() -> Vec<EmojiPair> {
    vec![pair("crab", "🦀"), pair("snake", "🐍"), pair("coffee", "☕")]
}

#[test]
fn test_levenshtein_known_values() {
    let cases: Vec<(&str, &str, usize)> = vec![
        ("kitten", "sitting", 3),
        ("crab", "crab", 0),
        ("crab", "crb", 1),
        ("crab", "snake", 4),
        ("crab", "coffee", 5),
        ("", "abc", 3),
        ("abc", "", 3),
        ("", "", 0),
    ];
    for (a, b, expected) in cases {
        let av = chars_of(a);
        let bv = chars_of(b);
        assert_eq!(levenshtein(&av, &bv), expected);
        assert_eq!(levenshtein(&bv, &av), expected);
    }
}

#[test]
fn test_find_exact_hit_and_miss() {
    let tree = BkTree::build(&sample_dictionary());

    let hit = tree.find_exact("crab");
    match hit {
        Some(p) => {
            assert_eq!(p.description, "crab");
            assert_eq!(p.emoji, "🦀");
        }
        None => panic!("crab should be found"),
    }

    assert!(tree.find_exact("crb").is_none());
    assert!(tree.find_exact("").is_none());
}

#[test]
fn test_find_exact_every_entry() {
    let entries = sample_dictionary();
    let tree = BkTree::build(&entries);
    for e in &entries {
        let found = tree.find_exact(e.description.as_str()).expect("entry should be found");
        assert_eq!(found.description, e.description);
        assert_eq!(found.emoji, e.emoji);
    }
}

#[test]
fn test_find_within_tolerance_one() {
    let tree = BkTree::build(&sample_dictionary());
    let hits = tree.find_within("crab", 1);
    assert_eq!(hits.len(), 1);
    assert_eq!(hits[0].0, 0);
    assert_eq!(hits[0].1.description, "crab");
    assert_eq!(hits[0].1.emoji, "🦀");
}

#[test]
fn test_find_within_matches_brute_force_in_dictionary_order() {
    let entries = sample_dictionary();
    let tree = BkTree::build(&entries);
    for tolerance in 0u32..8 {
        let hits = tree.find_within("crab", tolerance);
        let mut expected: Vec<(u32, String)> = Vec::new();
        let q = chars_of("crab");
        for e in &entries {
            let d = levenshtein(&q, &chars_of(e.description.as_str()));
            if d <= tolerance as usize {
                expected.push((d as u32, e.description.clone()));
            }
        }
        assert_eq!(hits.len(), expected.len());
        for (h, x) in hits.iter().zip(expected.iter()) {
            assert_eq!(h.0, x.0);
            assert_eq!(h.1.description, x.1);
        }
    }
}

#[test]
fn test_empty_tree_lookups_miss() {
    let tree = BkTree::build(&Vec::new());
    assert!(tree.find_exact("anything").is_none());
    assert!(tree.find_within("anything", 10).is_empty());
}

#[test]
fn test_duplicate_distances_share_an_edge() {
    // "cat" and "can" are both at distance one from "car": the tree has to
    // route them through the same edge, and both must still be found.
    let entries = vec![pair("car", "🚗"), pair("cat", "🐱"), pair("can", "🥫")];
    let tree = BkTree::build(&entries);
    for e in &entries {
        let found = tree.find_exact(e.description.as_str()).expect("entry should be found");
        assert_eq!(found.emoji, e.emoji);
    }
    let hits = tree.find_within("cam", 1);
    let names: Vec<String> = hits.iter().map(|h| h.1.description.clone()).collect();
    assert_eq!(names, vec!["car", "cat", "can"]);
}
