use gamecode_context::format::BedrockFormat;
use gamecode_context::format::BedrockMessage;
use gamecode_context::format::OpenAIFormat;
use gamecode_context::format::OpenAIMessage;
use gamecode_context::session::Message;
use gamecode_context::session::MessageRole;
use gamecode_context::session::Session;
use gamecode_context::MessageFormat;

#[test]
fn test_bedrock_format_conversion() {
    let mut session = Session::with_name("test".to_string());
    session.add_message(Message::new(MessageRole::System, "You are helpful".to_string()));
    session.add_message(Message::new(MessageRole::User, "Hello".to_string()));
    session.add_message(Message::new(MessageRole::Assistant, "Hi!".to_string()));

    let format = BedrockFormat::default();
    let bedrock_messages = format.from_session(&session).unwrap();

    assert_eq!(bedrock_messages.len(), 3);
    assert_eq!(bedrock_messages[0].role, "system");
    assert_eq!(bedrock_messages[1].role, "user");
    assert_eq!(bedrock_messages[2].role, "assistant");

    // Test round-trip conversion
    let converted_session = format.to_session(&bedrock_messages, "converted".to_string()).unwrap();
    assert_eq!(converted_session.messages.len(), 3);
}

#[test]
fn test_openai_format_conversion() {
    let mut session = Session::with_name("test".to_string());
    session.add_message(Message::new(MessageRole::System, "You are helpful".to_string()));
    session.add_message(Message::new(MessageRole::User, "Hello".to_string()));
    session.add_message(Message::new(MessageRole::Tool, "result".to_string()));

    let format = OpenAIFormat::default();
    let openai_messages = format.from_session(&session).unwrap();

    assert_eq!(openai_messages.len(), 3);
    assert_eq!(openai_messages[0].role, "system");
    assert_eq!(openai_messages[1].role, "user");
    assert_eq!(openai_messages[2].role, "function");
}

#[test]
fn openai_roles_round_trip_for_all_roles() {
    let mut session = Session::with_name("orig".to_string());
    session.add_message(Message::system("s".to_string()));
    session.add_message(Message::user("u".to_string()));
    session.add_message(Message::assistant("a".to_string()));
    session.add_message(Message::tool("t".to_string()));

    let format = OpenAIFormat::default();
    let wire = format.from_session(&session).unwrap();
    let back = format.to_session(&wire, "back".to_string()).unwrap();
    assert_eq!(back.name, "back");
    assert_eq!(back.messages.len(), 4);
    assert_eq!(back.messages[0].role, MessageRole::System);
    assert_eq!(back.messages[1].role, MessageRole::User);
    assert_eq!(back.messages[2].role, MessageRole::Assistant);
    assert_eq!(back.messages[3].role, MessageRole::Tool);
    for (orig, round) in session.messages.iter().zip(back.messages.iter()) {
        assert_eq!(orig.content, round.content);
    }
}

#[test]
fn bedrock_folds_tool_into_user_on_the_wire() {
    let mut session = Session::with_name("orig".to_string());
    session.add_message(Message::tool("t".to_string()));
    let format = BedrockFormat::default();
    let wire = format.from_session(&session).unwrap();
    assert_eq!(wire[0].role, "user");
    let back = format.to_session(&wire, "back".to_string()).unwrap();
    assert_eq!(back.messages[0].role, MessageRole::User);
}

#[test]
fn unknown_wire_roles_fall_back_to_user() {
    let bedrock = BedrockFormat::new(100);
    let b = bedrock
        .to_session(
            &[BedrockMessage { role: "oracle".to_string(), content: "x".to_string() }],
            "n".to_string(),
        )
        .unwrap();
    assert_eq!(b.messages[0].role, MessageRole::User);
    let openai = OpenAIFormat::new(100);
    let o = openai
        .to_session(
            &[OpenAIMessage { role: "oracle".to_string(), content: "x".to_string() }],
            "n".to_string(),
        )
        .unwrap();
    assert_eq!(o.messages[0].role, MessageRole::User);
}

#[test]
fn format_estimates_and_windows() {
    let bedrock = BedrockFormat::new(9000);
    assert_eq!(bedrock.max_context_tokens(), 9000);
    assert_eq!(BedrockFormat::default().max_context_tokens(), 8000);
    assert_eq!(
        bedrock.estimate_tokens(&BedrockMessage {
            role: "user".to_string(),
            content: "abcde".to_string()
        }),
        2
    );
    let openai = OpenAIFormat::default();
    assert_eq!(openai.max_context_tokens(), 4000);
    assert_eq!(OpenAIFormat::gpt4().max_context_tokens(), 8000);
    assert_eq!(OpenAIFormat::gpt4_turbo().max_context_tokens(), 128000);
    assert_eq!(
        openai.estimate_tokens(&OpenAIMessage {
            role: "user".to_string(),
            content: "abcd".to_string()
        }),
        1
    );
}
