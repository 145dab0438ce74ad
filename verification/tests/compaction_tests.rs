use gamecode_context::session::Message;
use gamecode_context::session::MessageRole;
use gamecode_context::session::Session;
use gamecode_context::CompactionStrategy;
use gamecode_context::ContextCompactor;
use gamecode_context::IntelligentCompactor;

fn contents(s: &Session) -> Vec<String> {
    s.messages.iter().map(|m| m.content.clone()).collect()
}

#[test]
fn test_intelligent_compactor() {
    let mut session = Session::with_name("test".to_string());

    // Add various messages
    session.add_message(Message::system("You are a helpful assistant".to_string()));
    session.add_message(Message::user("Hello".to_string()));
    session.add_message(Message::assistant("Hi there!".to_string()));
    session.add_message(Message::user("What's 2+2?".to_string()));
    session.add_message(Message::assistant("2+2 equals 4".to_string()));
    session.add_message(Message::tool("calculation_result: 4".to_string()));

    let compactor = IntelligentCompactor::default();

    // Compact to a very small token limit to force removal
    let target_tokens = 20; // Very small to test compaction
    compactor.compact(&mut session, target_tokens).unwrap();

    // Should keep some messages, prioritizing recent and important ones
    assert!(!session.messages.is_empty());
    assert!(session.total_tokens() <= target_tokens);
}

#[test]
fn sliding_keeps_two_most_recent_of_five() {
    // Five turns of 10 estimated tokens each against a budget of 25: only
    // the two most recent survive (20 <= 25 < 30).
    let mut s = Session::with_name("t".to_string());
    for i in 0..5 {
        let role = if i % 2 == 0 { MessageRole::User } else { MessageRole::Assistant };
        s.add_message(Message::new(role, format!("turn{}", i)).with_token_count(10));
    }
    s.compact(&CompactionStrategy::Sliding { max_tokens: 25 }, 25).unwrap();
    assert_eq!(contents(&s), vec!["turn3".to_string(), "turn4".to_string()]);
    assert_eq!(s.total_tokens(), 20);
}

#[test]
fn system_and_recent_keeps_system_then_recent() {
    // One System turn of 8 tokens plus five alternating turns of 10 tokens,
    // with budgets 10 and 25: the System turn plus the two most recent
    // non-system turns survive, system first.
    let mut s = Session::with_name("t".to_string());
    s.add_message(Message::system("sys".to_string()).with_token_count(8));
    for i in 1..=5 {
        let role = if i % 2 == 1 { MessageRole::User } else { MessageRole::Assistant };
        s.add_message(Message::new(role, format!("turn{}", i)).with_token_count(10));
    }
    let strategy = CompactionStrategy::SystemAndRecent { system_tokens: 10, recent_tokens: 25 };
    s.compact(&strategy, 30).unwrap();
    assert_eq!(
        contents(&s),
        vec!["sys".to_string(), "turn4".to_string(), "turn5".to_string()]
    );
    assert_eq!(s.messages.len(), 3);
    assert_eq!(s.messages[0].role, MessageRole::System);
}

#[test]
fn system_and_recent_skips_oversized_system_turn() {
    // A System turn that would overflow the system budget is dropped
    // permanently while scanning continues past it.
    let mut s = Session::with_name("t".to_string());
    s.add_message(Message::system("big".to_string()).with_token_count(20));
    s.add_message(Message::system("small".to_string()).with_token_count(5));
    s.add_message(Message::user("u".to_string()).with_token_count(5));
    let strategy = CompactionStrategy::SystemAndRecent { system_tokens: 10, recent_tokens: 10 };
    s.compact(&strategy, 0).unwrap();
    assert_eq!(contents(&s), vec!["small".to_string(), "u".to_string()]);
}

#[test]
fn intelligent_keeps_system_plus_reserved_recent() {
    // Six turns; the last two are reserved; the budget only admits the
    // System turn on top of them, although middle turns score higher on
    // recency.
    let mut s = Session::with_name("t".to_string());
    s.add_message(Message::system("sys".to_string()).with_token_count(8));
    s.add_message(Message::user("u1".to_string()).with_token_count(10));
    s.add_message(Message::assistant("a1".to_string()).with_token_count(10));
    s.add_message(Message::user("u2".to_string()).with_token_count(10));
    s.add_message(Message::assistant("a2".to_string()).with_token_count(10));
    s.add_message(Message::tool("t1".to_string()).with_token_count(6));
    let compactor = IntelligentCompactor {
        min_recent_messages: 2,
        recency_weight: 1000,
        role_weight: 500,
        content_weight: 300,
    };
    compactor.compact(&mut s, 25).unwrap();
    assert_eq!(
        contents(&s),
        vec!["sys".to_string(), "a2".to_string(), "t1".to_string()]
    );
    assert!(s.total_tokens() <= 25);
}

#[test]
fn compact_is_noop_under_budget() {
    let mut s = Session::with_name("t".to_string());
    s.add_user_message("hello".to_string());
    s.add_assistant_message("there".to_string());
    let ids: Vec<u128> = s.messages.iter().map(|m| m.id).collect();
    for strategy in [
        CompactionStrategy::Sliding { max_tokens: 5 },
        CompactionStrategy::SystemAndRecent { system_tokens: 2, recent_tokens: 3 },
        CompactionStrategy::Intelligent { target_tokens: 5 },
    ] {
        s.compact(&strategy, 1000).unwrap();
        let after: Vec<u128> = s.messages.iter().map(|m| m.id).collect();
        assert_eq!(after, ids);
    }
}

#[test]
fn compact_twice_equals_once() {
    for strategy in [
        CompactionStrategy::Sliding { max_tokens: 25 },
        CompactionStrategy::SystemAndRecent { system_tokens: 10, recent_tokens: 20 },
        CompactionStrategy::Intelligent { target_tokens: 30 },
    ] {
        let mut s = Session::with_name("t".to_string());
        s.add_message(Message::system("rules".to_string()).with_token_count(9));
        for i in 0..6 {
            let role = if i % 2 == 0 { MessageRole::User } else { MessageRole::Assistant };
            s.add_message(Message::new(role, format!("turn{}", i)).with_token_count(7));
        }
        s.compact(&strategy, 12).unwrap();
        let once = contents(&s);
        s.compact(&strategy, 12).unwrap();
        assert_eq!(contents(&s), once);
    }
}

#[test]
fn compact_empty_log_is_ok() {
    let mut s = Session::new();
    s.compact(&CompactionStrategy::Sliding { max_tokens: 0 }, 0).unwrap();
    assert!(s.messages.is_empty());
}

#[test]
fn sliding_drops_everything_when_single_turn_exceeds_budget() {
    let mut s = Session::with_name("t".to_string());
    s.add_message(Message::user("huge".to_string()).with_token_count(100));
    s.compact(&CompactionStrategy::Sliding { max_tokens: 25 }, 25).unwrap();
    assert!(s.messages.is_empty());
}

#[test]
fn intelligent_never_drops_reserved_recent_turns() {
    // Even when the reserved suffix alone exceeds the target, it survives:
    // this is the one documented case where the budget may stay exceeded.
    let mut s = Session::with_name("t".to_string());
    s.add_message(Message::user("old".to_string()).with_token_count(5));
    s.add_message(Message::user("big1".to_string()).with_token_count(50));
    s.add_message(Message::user("big2".to_string()).with_token_count(50));
    let compactor = IntelligentCompactor {
        min_recent_messages: 2,
        recency_weight: 1000,
        role_weight: 500,
        content_weight: 300,
    };
    compactor.compact(&mut s, 25).unwrap();
    assert_eq!(contents(&s), vec!["big1".to_string(), "big2".to_string()]);
}

#[test]
fn message_priority_orders_roles() {
    let mut s = Session::with_name("t".to_string());
    s.add_message(Message::system("a".to_string()));
    s.add_message(Message::tool("b".to_string()));
    s.add_message(Message::assistant("c".to_string()));
    s.add_message(Message::user("d".to_string()));
    let c = IntelligentCompactor {
        min_recent_messages: 0,
        recency_weight: 0,
        role_weight: 1000,
        content_weight: 0,
    };
    let p_sys = c.message_priority(&s.messages[0], &s);
    let p_tool = c.message_priority(&s.messages[1], &s);
    let p_asst = c.message_priority(&s.messages[2], &s);
    let p_user = c.message_priority(&s.messages[3], &s);
    assert!(p_sys > p_tool && p_tool > p_asst && p_asst > p_user);
    assert_eq!(p_sys, 1000 * 1000);
    assert_eq!(p_user, 400 * 1000);
}
