use guac::classifier::normalize_intent;
use guac::groq_client::{
    clean_reply, completion_from_body, completion_text, parse_response,
    response_from_json, retry_step, status_class, Attempt, CompletionError, JsonValue,
    ResponseError, RetryStep, StatusClass,
};
use guac::kg::YamlValue;

fn json(v: &serde_json::Value) -> JsonValue {
    match v {
        serde_json::Value::Null => JsonValue::Null,
        serde_json::Value::Bool(b) => JsonValue::Bool(*b),
        serde_json::Value::Number(n) => JsonValue::Number(n.to_string()),
        serde_json::Value::String(s) => JsonValue::String(s.clone()),
        serde_json::Value::Array(a) => JsonValue::Array(a.iter().map(json).collect()),
        serde_json::Value::Object(m) => {
            JsonValue::Object(m.iter().map(|(k, v)| (k.clone(), json(v))).collect())
        }
    }
}

fn parse(text: &str) -> JsonValue {
    json(&serde_json::from_str::<serde_json::Value>(text).unwrap())
}

/// What the model answered, as the client reads it.
fn read_answer(content: &str) -> guac::groq_client::GroqResponse {
    parse_response(content).unwrap()
}

const BODY_WITH_DELTA: &str = r#"{
    "choices": [{
        "message": {
            "content": "{\"response\":\"Hello Rory\",\"kg_updates\":[{\"path\":\"user.name\",\"value\":\"Rory\"}],\"memory_updates\":[\"likes concise answers\"],\"current_topic\":\"greeting\"}"
        }
    }]
}"#;

#[test]
fn test_chat_parses_response_and_delta() {
    assert!(completion_text(&parse(BODY_WITH_DELTA)).is_some());
    let content = completion_from_body(BODY_WITH_DELTA).unwrap();
    let resp = read_answer(&content);
    assert_eq!(resp.response, "Hello Rory");
    assert_eq!(resp.delta.kg_updates.len(), 1);
    assert_eq!(resp.delta.kg_updates[0].path, "user.name");
    assert!(matches!(&resp.delta.kg_updates[0].value, YamlValue::String(s) if s == "Rory"));
    assert!(resp.delta.memory_updates.contains(&"likes concise answers".to_string()));
    assert_eq!(resp.delta.current_topic, Some("greeting".into()));
}

#[test]
fn test_chat_handles_markdown_json() {
    let body = parse(
        r#"{
            "choices": [{
                "message": {
                    "content": "```json\n{\"response\":\"ok\"}\n```"
                }
            }]
        }"#,
    );
    let content = completion_text(&body).unwrap();
    assert_eq!(read_answer(&content).response, "ok");
}

#[test]
fn test_classify_intent() {
    let resp = read_answer("{\"response\":\"KG\"}");
    assert_eq!(normalize_intent(&resp.response), "kg");
    assert_eq!(normalize_intent("Memory"), "memory");
    assert_eq!(normalize_intent("something else"), "both");
}

/// Runs the retry policy over a sequence of attempt outcomes, as the client
/// does: the number of requests sent and how the last one was handled.
fn run_policy(outcomes: &[Attempt], max: usize) -> (usize, RetryStep) {
    let mut tries = 0;
    for (sent, a) in outcomes.iter().enumerate() {
        match retry_step(tries, *a, max) {
            RetryStep::Retry => tries += 1,
            other => return (sent + 1, other),
        }
    }
    panic!("the policy asked for more attempts than were given");
}

#[test]
fn test_api_error() {
    // A 401 is an error after exactly one request.
    assert_eq!(run_policy(&[Attempt::Status(401)], 3), (1, RetryStep::Fail));
    assert_eq!(status_class(401), StatusClass::Fatal);
    assert_eq!(status_class(200), StatusClass::Success);
    assert_eq!(status_class(204), StatusClass::Success);
    assert_eq!(status_class(429), StatusClass::Transient);
    assert_eq!(status_class(503), StatusClass::Transient);
    assert_eq!(status_class(404), StatusClass::Fatal);
    assert_eq!(status_class(302), StatusClass::Fatal);
}

#[test]
fn transient_errors_are_retried_up_to_the_limit() {
    let flaky = [Attempt::Status(503), Attempt::SendFailed, Attempt::Status(200)];
    assert_eq!(run_policy(&flaky, 3), (3, RetryStep::Accept));
    let down = [Attempt::Status(429); 4];
    assert_eq!(run_policy(&down, 3), (4, RetryStep::Fail));
    assert_eq!(run_policy(&[Attempt::SendFailed], 0), (1, RetryStep::Fail));
    assert_eq!(retry_step(2, Attempt::Status(500), 3), RetryStep::Retry);
    assert_eq!(retry_step(3, Attempt::Status(500), 3), RetryStep::Fail);
}

#[test]
fn clean_reply_strips_fences() {
    assert_eq!(clean_reply("  ```json\n{\"a\":1}\n```  "), "{\"a\":1}");
    assert_eq!(clean_reply("```json```json{}``````"), "{}");
    assert_eq!(clean_reply("plain"), "plain");
}

#[test]
fn summary_field_stands_in_for_response() {
    let resp = read_answer("{\"summary\":\"they said hi\"}");
    assert_eq!(resp.response, "they said hi");
    let resp = read_answer("{\"other\":1,\"memory_updates\":[1,\"x\",null]}");
    assert_eq!(resp.response, "(no response field)");
    assert_eq!(resp.delta.memory_updates, vec!["x"]);
    assert!(resp.delta.kg_updates.is_empty());
    assert!(resp.delta.current_topic.is_none());
}

#[test]
fn malformed_kg_updates_are_skipped() {
    let resp = read_answer(
        "{\"response\":\"r\",\"kg_updates\":[{\"path\":1,\"value\":2},{\"path\":\"a.b\"},{\"path\":\"c\",\"value\":[1,true]}]}",
    );
    assert_eq!(resp.delta.kg_updates.len(), 1);
    assert_eq!(resp.delta.kg_updates[0].path, "c");
    match &resp.delta.kg_updates[0].value {
        YamlValue::Sequence(items) => {
            assert!(matches!(&items[0], YamlValue::Number(n) if n == "1"));
            assert!(matches!(&items[1], YamlValue::Bool(true)));
        }
        other => panic!("unexpected {:?}", other),
    }
}

#[test]
fn completion_text_needs_a_string_content() {
    assert!(completion_text(&parse("{\"choices\":[]}")).is_none());
    assert!(completion_text(&parse("{\"choices\":[{\"message\":{\"content\":3}}]}")).is_none());
    assert!(completion_text(&parse("{}")).is_none());
}

#[test]
fn json_objects_become_mappings() {
    let resp = read_answer("{\"kg_updates\":[{\"path\":\"a\",\"value\":{\"k\":null,\"s\":\"v\",\"n\":1.5}}]}");
    match &resp.delta.kg_updates[0].value {
        YamlValue::Mapping(entries) => {
            assert_eq!(entries.len(), 3);
            assert!(matches!(&entries[0].0, YamlValue::String(k) if k == "k"));
            assert!(matches!(&entries[0].1, YamlValue::Null));
            assert!(matches!(&entries[1].1, YamlValue::Number(n) if n == "1.5"));
            assert!(matches!(&entries[2].1, YamlValue::String(v) if v == "v"));
        }
        other => panic!("unexpected {:?}", other),
    }
}

#[test]
fn answers_that_are_not_json_are_refused() {
    let err = parse_response("Sure! Here you go.").unwrap_err();
    assert_eq!(err, ResponseError::NotJson);
    assert_eq!(err.message(), "parsing JSON response");
}

#[test]
fn reading_a_parsed_answer_directly() {
    let resp = response_from_json(&parse("{\"response\":\"hi\",\"current_topic\":7}"));
    assert_eq!(resp.response, "hi");
    assert!(resp.delta.current_topic.is_none());
}

#[test]
fn completion_bodies_must_be_json_with_content() {
    assert_eq!(completion_from_body("not json").unwrap_err(), CompletionError::NotJson);
    assert_eq!(completion_from_body("{\"choices\":[]}").unwrap_err(), CompletionError::NoContent);
    assert_eq!(CompletionError::NoContent.message(), "missing content in Groq response");
    assert_eq!(
        completion_from_body("{\"choices\":[{\"message\":{\"content\":\"x\"}}]}").unwrap(),
        "x"
    );
}
