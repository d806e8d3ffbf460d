use emojicp::pair::EmojiPair;

#[test]
fn test_emoji_pair_display() {
    let mut pair = EmojiPair {
        description: String::from(""),
        emoji: String::from("🐵"),
    };

    // emojis with short descriptions are displayed properly
    pair.description = String::from("monkey");
    assert_eq!("monkey\t\t\t🐵", pair.display_line());

    // emojis with medium descriptions are displayed properly
    pair.description = String::from("cool monkey");
    assert_eq!("cool monkey\t\t🐵", pair.display_line());

    // emojis with long descriptions are displayed properly
    pair.description = String::from("very cool monkey");
    assert_eq!("very cool monkey\t🐵", pair.display_line());
}

#[test]
fn pair_test_emoji_pair_display() {
    let mut pair = EmojiPair {
        description: String::from(""),
        emoji: String::from("🐵"),
    };

    pair.description = String::from("monkey");
    assert_eq!("monkey\t\t\t🐵", pair.display_line());

    pair.description = String::from("cool monkey");
    assert_eq!("cool monkey\t\t🐵", pair.display_line());

    pair.description = String::from("very cool monkey");
    assert_eq!("very cool monkey\t🐵", pair.display_line());
}

#[test]
fn test_duplicate_copies_both_fields() {
    let pair = EmojiPair {
        description: String::from("crab"),
        emoji: String::from("🦀"),
    };
    let copy = pair.duplicate();
    assert_eq!(copy.description, "crab");
    assert_eq!(copy.emoji, "🦀");
}
