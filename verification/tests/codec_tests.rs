use emojicp::codec::{decode, encode};
use emojicp::pair::EmojiPair;
use emojicp::tree::BkTree;
use emojicp::types::EmojiError;

fn pair(description: &str, emoji: &str) -> EmojiPair {
    EmojiPair {
        description: String::from(description),
        emoji: String::from(emoji),
    }
}

fn sample_tree() -> BkTree {
    let entries = vec![pair("crab", "🦀"), pair("snake", "🐍"), pair("coffee", "☕")];
    BkTree::build(&entries)
}

#[test]
fn test_round_trip_answers_queries_identically() {
    let tree = sample_tree();
    let blob = encode(&tree);
    let rebuilt = match decode(&blob) {
        Ok(t) => t,
        Err(_) => panic!("a fresh encoding must decode"),
    };

    for q in ["crab", "snake", "coffee", "crb", "", "espresso"] {
        match (tree.find_exact(q), rebuilt.find_exact(q)) {
            (Some(a), Some(b)) => {
                assert_eq!(a.description, b.description);
                assert_eq!(a.emoji, b.emoji);
            }
            (None, None) => {}
            _ => panic!("exact lookup differs after the round trip"),
        }
        for tolerance in 0u32..7 {
            let a = tree.find_within(q, tolerance);
            let b = rebuilt.find_within(q, tolerance);
            assert_eq!(a.len(), b.len());
            for (x, y) in a.iter().zip(b.iter()) {
                assert_eq!(x.0, y.0);
                assert_eq!(x.1.description, y.1.description);
                assert_eq!(x.1.emoji, y.1.emoji);
            }
        }
    }
}

#[test]
fn test_round_trip_of_the_empty_index() {
    let tree = BkTree::build(&Vec::new());
    let blob = encode(&tree);
    let rebuilt = decode(&blob).unwrap_or_else(|_| panic!("empty index must round-trip"));
    assert!(rebuilt.find_exact("anything").is_none());
}

#[test]
fn test_round_trip_keeps_multibyte_text_intact() {
    // both fields hold characters with multi-byte encodings
    let entries = vec![pair("crème brûlée", "🍮"), pair("naïve", "😇")];
    let tree = BkTree::build(&entries);
    let rebuilt = decode(&encode(&tree)).unwrap_or_else(|_| panic!("must decode"));
    let found = rebuilt.find_exact("crème brûlée").expect("entry survives the round trip");
    assert_eq!(found.emoji, "🍮");
    let found2 = rebuilt.find_exact("naïve").expect("entry survives the round trip");
    assert_eq!(found2.emoji, "😇");
}

#[test]
fn test_garbage_bytes_fail_to_decode() {
    let garbage: Vec<u8> = b"not an index at all".to_vec();
    match decode(&garbage) {
        Err(EmojiError::CannotDeserializeBKTree { .. }) => {}
        _ => panic!("garbage must be rejected as a corrupt index"),
    }
}

#[test]
fn test_truncated_blob_fails_to_decode() {
    let tree = sample_tree();
    let blob = encode(&tree);
    for cut in [0, 1, 7, 8, blob.len() / 2, blob.len() - 1] {
        let truncated: Vec<u8> = blob[..cut].to_vec();
        match decode(&truncated) {
            Err(EmojiError::CannotDeserializeBKTree { .. }) => {}
            _ => panic!("a truncated blob must be rejected"),
        }
    }
}

#[test]
fn test_trailing_bytes_fail_to_decode() {
    let tree = sample_tree();
    let mut blob = encode(&tree);
    blob.push(0);
    match decode(&blob) {
        Err(EmojiError::CannotDeserializeBKTree { .. }) => {}
        _ => panic!("trailing bytes must be rejected"),
    }
}

#[test]
fn test_invalid_utf8_fails_to_decode() {
    let tree = BkTree::build(&vec![pair("ab", "x")]);
    let mut blob = encode(&tree);
    // the description bytes sit right after the two length prefixes;
    // 0xff never occurs in UTF-8
    blob[16] = 0xff;
    match decode(&blob) {
        Err(EmojiError::CannotDeserializeBKTree { .. }) => {}
        _ => panic!("invalid text must be rejected"),
    }
}
