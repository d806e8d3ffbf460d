use emojicp::pair::EmojiPair;
use emojicp::suggestion::{rank, Command, EmojiCarousel, SessionEvent};
use emojicp::tree::BkTree;
use emojicp::types::ApplicationMode;

fn pair(description: &str, emoji: &str) -> EmojiPair {
    EmojiPair {
        description: String::from(description),
        emoji: String::from(emoji),
    }
}

fn sample_session() -> EmojiCarousel {
    let entries = vec![pair("crab", "🦀"), pair("snake", "🐍"), pair("coffee", "☕")];
    EmojiCarousel::new(BkTree::build(&entries))
}

fn type_word(session: &mut EmojiCarousel, word: &str) {
    for c in word.chars() {
        let out = session.handle_command(Command::InsertChar(c));
        assert!(out.is_none());
    }
}

#[test]
fn test_typing_narrows_and_stays_in_search_mode() {
    let mut session = sample_session();
    type_word(&mut session, "crab");

    assert_eq!(session.mode, ApplicationMode::Search);
    assert!(!session.suggestions.is_empty());
    assert_eq!(session.suggestions[0].description, "crab");
    assert_eq!(session.suggestions[0].emoji, "🦀");
    // the other entries sit within the tolerance too, ranked by distance,
    // ties in dictionary order
    let names: Vec<String> = session.suggestions.iter().map(|p| p.description.clone()).collect();
    assert_eq!(names, vec!["crab", "snake", "coffee"]);
}

#[test]
fn test_move_down_then_commit_selects_first_suggestion() {
    let mut session = sample_session();
    type_word(&mut session, "crab");

    let out = session.handle_command(Command::MoveDown);
    assert!(out.is_none());
    assert_eq!(session.mode, ApplicationMode::Select { current_selection: 0 });

    match session.handle_command(Command::Commit) {
        Some(SessionEvent::Selected(p)) => {
            assert_eq!(p.description, "crab");
            assert_eq!(p.emoji, "🦀");
        }
        _ => panic!("commit while selecting should emit the selection"),
    }
}

#[test]
fn test_commit_while_typing_is_a_no_op() {
    let mut session = sample_session();
    type_word(&mut session, "crab");
    assert!(session.handle_command(Command::Commit).is_none());
    assert_eq!(session.mode, ApplicationMode::Search);
}

#[test]
fn test_cancel_emits_cancelled() {
    let mut session = sample_session();
    match session.handle_command(Command::Cancel) {
        Some(SessionEvent::Cancelled) => {}
        _ => panic!("cancel should emit the wish to stop"),
    }
}

#[test]
fn test_delete_back_on_empty_query_is_a_no_op() {
    let mut session = sample_session();
    let out = session.handle_command(Command::DeleteBack);
    assert!(out.is_none());
    assert_eq!(session.cursor, 0);
    assert!(session.search_term.is_empty());
    assert!(session.suggestions.is_empty());
    assert_eq!(session.mode, ApplicationMode::Search);
}

#[test]
fn test_deleting_the_whole_query_clears_suggestions() {
    let mut session = sample_session();
    type_word(&mut session, "cr");
    assert!(!session.suggestions.is_empty());
    session.handle_command(Command::DeleteBack);
    assert!(!session.suggestions.is_empty());
    session.handle_command(Command::DeleteBack);
    assert!(session.suggestions.is_empty());
    assert_eq!(session.cursor, 0);
}

#[test]
fn test_selection_clamps_at_both_ends() {
    let mut session = sample_session();
    type_word(&mut session, "crab");
    let n = session.suggestions.len();
    assert!(n > 1);

    // a long run of MoveDown parks on the last suggestion, no wraparound
    for _ in 0..10 {
        session.handle_command(Command::MoveDown);
    }
    assert_eq!(session.mode, ApplicationMode::Select { current_selection: n - 1 });

    // a long run of MoveUp parks on the first, no wraparound
    for _ in 0..10 {
        session.handle_command(Command::MoveUp);
    }
    assert_eq!(session.mode, ApplicationMode::Select { current_selection: 0 });
}

#[test]
fn test_arrows_are_no_ops_while_typing_with_no_suggestions() {
    let mut session = sample_session();
    assert!(session.handle_command(Command::MoveDown).is_none());
    assert_eq!(session.mode, ApplicationMode::Search);
    assert!(session.handle_command(Command::MoveUp).is_none());
    assert_eq!(session.mode, ApplicationMode::Search);
    assert!(session.suggestions.is_empty());
}

#[test]
fn test_editing_while_selecting_returns_to_search_mode() {
    let mut session = sample_session();
    type_word(&mut session, "crab");
    session.handle_command(Command::MoveDown);
    assert!(matches!(session.mode, ApplicationMode::Select { .. }));

    session.handle_command(Command::InsertChar('s'));
    assert_eq!(session.mode, ApplicationMode::Search);

    session.handle_command(Command::MoveDown);
    assert!(matches!(session.mode, ApplicationMode::Select { .. }));

    session.handle_command(Command::DeleteBack);
    assert_eq!(session.mode, ApplicationMode::Search);
}

#[test]
fn test_get_current_selection_follows_the_arrows() {
    let mut session = sample_session();
    type_word(&mut session, "crab");
    assert!(session.get_current_selection().is_none());

    session.handle_command(Command::MoveDown);
    session.handle_command(Command::MoveDown);
    let picked = session.get_current_selection().expect("a selection exists");
    assert_eq!(picked.description, session.suggestions[1].description);
}

#[test]
fn test_rank_orders_by_distance_with_ties_in_input_order() {
    let hits = vec![
        (1, pair("beta", "b")),
        (0, pair("alpha", "a")),
        (1, pair("gamma", "c")),
        (2, pair("delta", "d")),
    ];
    let ranked = rank(&hits, 5);
    let names: Vec<String> = ranked.iter().map(|p| p.description.clone()).collect();
    assert_eq!(names, vec!["alpha", "beta", "gamma", "delta"]);

    // the same input ranks the same way again
    let again = rank(&hits, 5);
    let names_again: Vec<String> = again.iter().map(|p| p.description.clone()).collect();
    assert_eq!(names, names_again);
}

#[test]
fn test_rank_truncates_to_the_cap() {
    let hits = vec![
        (3, pair("a", "1")),
        (1, pair("b", "2")),
        (2, pair("c", "3")),
    ];
    let ranked = rank(&hits, 2);
    let names: Vec<String> = ranked.iter().map(|p| p.description.clone()).collect();
    assert_eq!(names, vec!["b", "c"]);

    let empty = rank(&Vec::new(), 5);
    assert!(empty.is_empty());
}
