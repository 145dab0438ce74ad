use gamecode_context::session::Message;
use gamecode_context::session::MessageRole;
use gamecode_context::session::Session;
use gamecode_context::CompactionStrategy;
use gamecode_context::Config;
use gamecode_context::IntelligentCompactor;

#[test]
fn estimate_rounds_up_quarter_of_chars() {
    assert_eq!(Message::user(String::new()).estimate_tokens(), 0);
    assert_eq!(Message::user("abcd".to_string()).estimate_tokens(), 1);
    assert_eq!(Message::user("abcde".to_string()).estimate_tokens(), 2);
    assert_eq!(Message::user("abcdefgh".to_string()).estimate_tokens(), 2);
    // 27 characters estimate to ceil(27 / 4) = 7 tokens.
    assert_eq!(
        Message::system("You are a helpful assistant".to_string()).estimate_tokens(),
        7
    );
}

#[test]
fn estimate_counts_characters_not_bytes() {
    // Six characters, eleven bytes.
    let m = Message::user("héllö✓".to_string());
    assert_eq!(m.content.chars().count(), 6);
    assert_eq!(m.estimate_tokens(), 2);
}

#[test]
fn cached_token_count_wins_over_estimate() {
    let m = Message::assistant("a long piece of content".to_string()).with_token_count(3);
    assert_eq!(m.estimate_tokens(), 3);
}

#[test]
fn total_tokens_sums_all_messages() {
    let mut s = Session::with_name("t".to_string());
    s.add_message(Message::user("abcd".to_string()));
    s.add_message(Message::assistant("abcde".to_string()));
    s.add_message(Message::tool("x".to_string()).with_token_count(10));
    assert_eq!(s.total_tokens(), 1 + 2 + 10);
}

#[test]
fn add_message_helpers_set_roles() {
    let mut s = Session::new();
    s.add_user_message("u".to_string());
    s.add_assistant_message("a".to_string());
    s.add_system_message("s".to_string());
    s.add_tool_message("t".to_string());
    assert_eq!(s.messages.len(), 4);
    assert_eq!(s.messages[0].role, MessageRole::User);
    assert_eq!(s.messages[1].role, MessageRole::Assistant);
    assert_eq!(s.messages[2].role, MessageRole::System);
    assert_eq!(s.messages[3].role, MessageRole::Tool);
    assert!(s.created_at <= s.updated_at);
}

#[test]
fn recent_messages_returns_suffix_in_order() {
    let mut s = Session::new();
    s.add_user_message("one".to_string());
    s.add_user_message("two".to_string());
    s.add_user_message("three".to_string());
    let last_two = s.recent_messages(2);
    assert_eq!(last_two.len(), 2);
    assert_eq!(last_two[0].content, "two");
    assert_eq!(last_two[1].content, "three");
    let all = s.recent_messages(99);
    assert_eq!(all.len(), 3);
    assert_eq!(all[0].content, "one");
}

#[test]
fn messages_since_filters_strictly_after() {
    let mut s = Session::new();
    s.add_user_message("old".to_string());
    s.add_user_message("new".to_string());
    let cutoff = s.messages[0].timestamp;
    let after = s.messages_since(cutoff);
    for m in &after {
        assert!(m.timestamp > cutoff);
    }
    let none = s.messages_since(i64::MAX);
    assert_eq!(none.len(), 0);
}

#[test]
fn with_metadata_replaces_equal_keys() {
    let m = Message::user("hi".to_string())
        .with_metadata("k".to_string(), "1".to_string())
        .with_metadata("other".to_string(), "x".to_string())
        .with_metadata("k".to_string(), "2".to_string());
    assert_eq!(m.metadata.len(), 2);
    assert_eq!(m.metadata[0], ("k".to_string(), "2".to_string()));
    assert_eq!(m.metadata[1], ("other".to_string(), "x".to_string()));
}

#[test]
fn default_config_values() {
    let c = Config::default();
    assert_eq!(c.max_tokens, 8000);
    assert!(matches!(
        c.compaction_strategy,
        CompactionStrategy::SystemAndRecent { system_tokens: 1000, recent_tokens: 6000 }
    ));
    assert!(c.storage_dir.is_none());
    assert!(c.auto_save);
    let s = CompactionStrategy::default();
    assert!(matches!(
        s,
        CompactionStrategy::SystemAndRecent { system_tokens: 1000, recent_tokens: 6000 }
    ));
    let ic = IntelligentCompactor::default();
    assert_eq!(ic.min_recent_messages, 5);
    assert_eq!(ic.recency_weight, 1000);
    assert_eq!(ic.role_weight, 500);
    assert_eq!(ic.content_weight, 300);
}

#[test]
fn append_and_compact_stays_within_budget() {
    let mut s = Session::with_name("t".to_string());
    let strategy = CompactionStrategy::Sliding { max_tokens: 25 };
    for i in 0..5 {
        let m = Message::user(format!("m{}", i)).with_token_count(10);
        s.append_and_compact(m, &strategy, 25).unwrap();
    }
    assert!(s.total_tokens() <= 25);
    assert_eq!(s.messages.len(), 2);
    assert_eq!(s.messages[0].content, "m3");
    assert_eq!(s.messages[1].content, "m4");
}
