use emojicp::pair::EmojiPair;
use emojicp::search::search_exact;
use emojicp::suggestion::remove_last_char;
use emojicp::tree::BkTree;
use emojicp::types::{Args, Coordinates, EmojiError};

fn pair(description: &str, emoji: &str) -> EmojiPair {
    EmojiPair {
        description: String::from(description),
        emoji: String::from(emoji),
    }
}

#[test]
fn test_search_exact_hit_goes_to_the_value() {
    let tree = BkTree::build(&vec![pair("crab", "🦀"), pair("snake", "🐍")]);
    match search_exact(&tree, String::from("snake")) {
        Ok(p) => assert_eq!(p.emoji, "🐍"),
        Err(_) => panic!("an existing description must be found"),
    }
}

#[test]
fn test_search_exact_miss_names_the_query() {
    let tree = BkTree::build(&vec![pair("crab", "🦀")]);
    match search_exact(&tree, String::from("lobster")) {
        Err(EmojiError::InvalidEmojiName { description }) => {
            assert_eq!(description, "lobster");
        }
        _ => panic!("a missing description must be reported as invalid"),
    }
}

#[test]
fn test_remove_last_char() {
    // empty string returns an empty string
    assert_eq!("", remove_last_char(""));

    // single character string returns empty string
    assert_eq!("", remove_last_char("&"));

    // only last character is removed from a string of characters
    assert_eq!("abc", remove_last_char("abcd"));

    // multi-byte characters come off whole
    assert_eq!("crab ", remove_last_char("crab 🦀"));
}

#[test]
fn test_coordinates_truncate_to_terminal_width() {
    let c = Coordinates { x: 3, y: 70000 };
    assert_eq!(c.x(), 3u16);
    assert_eq!(c.y(), (70000 % 65536) as u16);
}

#[test]
fn test_args_carry_the_optional_query() {
    let direct = Args { description: Some(String::from("crab")) };
    assert_eq!(direct.description.as_deref(), Some("crab"));
    let interactive = Args { description: None };
    assert!(interactive.description.is_none());
}

#[test]
fn test_error_variants_carry_their_context() {
    let e = EmojiError::IoError { filename: String::from("emojitree.raw") };
    assert!(matches!(e, EmojiError::IoError { filename } if filename == "emojitree.raw"));

    let e = EmojiError::CannotCopyEmojiToClipboard { emoji: String::from("🦀") };
    assert!(matches!(e, EmojiError::CannotCopyEmojiToClipboard { emoji } if emoji == "🦀"));

    let e = EmojiError::CannotEnterRawMode;
    assert!(matches!(e, EmojiError::CannotEnterRawMode));
}
