use the_last_signal::ai::{clean_reply, parse_response, prompt_history_of, Config};
use the_last_signal::game::{Chat, Game};

#[test]
fn cloud_model_is_rejected() {
    assert!(Config { model: "qwen:cloud".into(), ..Config::default() }.validate().is_err());
}

#[test]
fn default_config_is_accepted() {
    let c = Config::default();
    assert_eq!((c.model.as_str(), c.port, c.timeout_seconds), ("qwen3:4b", 11434, 90));
    assert!(c.validate().is_ok());
}

#[test]
fn config_limits() {
    let bad = "Use a downloaded local model, a valid port, and a 5-180 second timeout.";
    assert_eq!(Config { port: 0, ..Config::default() }.validate().unwrap_err(), bad);
    assert!(Config { timeout_seconds: 4, ..Config::default() }.validate().is_err());
    assert!(Config { timeout_seconds: 181, ..Config::default() }.validate().is_err());
    assert!(Config { timeout_seconds: 5, ..Config::default() }.validate().is_ok());
    assert!(Config { timeout_seconds: 180, ..Config::default() }.validate().is_ok());
    assert!(Config { model: String::new(), ..Config::default() }.validate().is_err());
    assert!(Config { model: "a".repeat(121), ..Config::default() }.validate().is_err());
    assert!(Config { model: "a".repeat(120), ..Config::default() }.validate().is_ok());
    assert!(Config { model: "Big-CLOUD".into(), ..Config::default() }.validate().is_err());
    assert!(Config { model: "llama 3".into(), ..Config::default() }.validate().is_err());
    assert!(Config { model: "hf.co/x/y_z:q4".into(), ..Config::default() }.validate().is_ok());
}

#[test]
fn blank_replies_are_refused() {
    assert!(clean_reply("").is_err());
    assert_eq!(clean_reply(" \n\u{7}\t").unwrap_err(), "The model returned an empty reply");
}

#[test]
fn replies_are_cleaned_and_bounded() {
    assert_eq!(clean_reply("a\u{1}b\nc\u{85}").unwrap(), "ab\nc");
    let long: String = "x".repeat(1300);
    assert_eq!(clean_reply(&long).unwrap().chars().count(), 1200);
    assert_eq!(clean_reply(" ok ").unwrap(), " ok ");
}

#[test]
fn only_recent_conversation_is_sent() {
    let mut g = Game::new(1);
    for i in 0..10 {
        g.add_chat(if i % 2 == 0 { "user" } else { "assistant" }, &format!("m{i}"));
    }
    g.add_chat("user", &"z".repeat(700));
    let h = prompt_history_of(&g.chat);
    assert_eq!(h.len(), 8);
    assert_eq!(h[0].content, "m3");
    assert_eq!(h[7].content.chars().count(), 600);
    let few = vec![Chat { role: "user".into(), content: "hi".into() }];
    assert_eq!(prompt_history_of(&few)[0].role, "user");
}

#[test]
fn invalid_output_is_rejected() {
    assert!(parse_response("garbage").is_err());
    assert!(parse_response(r#"{"message":{"content":"{\"reply\":\"\"}"}}"#).is_err());
}

#[test]
fn each_malformed_answer_says_why() {
    assert_eq!(parse_response("garbage").unwrap_err(), "Model server returned invalid JSON");
    assert_eq!(parse_response(r#"{"message":{}}"#).unwrap_err(), "Model server omitted message.content");
    assert_eq!(
        parse_response(r#"{"message":{"content":"{\"answer\":\"hi\"}"}}"#).unwrap_err(),
        "Model reply did not match the requested schema; try again"
    );
    assert_eq!(
        parse_response(r#"{"message":{"content":"{\"reply\":\"  \"}"}}"#).unwrap_err(),
        "The model returned an empty reply"
    );
    assert_eq!(
        parse_response(r#"{"message":{"content":"{\"reply\":\"The relay location is still unknown.\"}"}}"#).unwrap(),
        "The relay location is still unknown."
    );
}
