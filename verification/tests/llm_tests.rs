use cmdmind::intent::CommandSource;
use cmdmind::llm::{
    json_parse_error, llm_json_body, plan_from_llm_fields, OllamaConfig, OllamaError,
    DEFAULT_OLLAMA_BASE_URL, DEFAULT_OLLAMA_MODEL,
};

#[test]
fn test_default_config() {
    let config = OllamaConfig::default();
    assert_eq!(config.base_url, DEFAULT_OLLAMA_BASE_URL);
    assert!(!config.model.is_empty());
}

#[test]
fn test_config_defaults_and_timeout() {
    let config = OllamaConfig::from_settings(None, None);
    assert_eq!(config.base_url, "http://localhost:11434");
    assert_eq!(config.model, DEFAULT_OLLAMA_MODEL);
    assert_eq!(config.timeout, std::time::Duration::from_secs(30));
}

#[test]
fn test_config_settings_trim_trailing_slashes() {
    let config = OllamaConfig::from_settings(
        Some("http://example.test:8080///".to_string()),
        Some("mistral".to_string()),
    );
    assert_eq!(config.base_url, "http://example.test:8080");
    assert_eq!(config.model, "mistral");
}

#[test]
fn test_json_body_plain_reply_is_trimmed() {
    let body = llm_json_body("  {\"command\": \"ls\"}  \n").unwrap();
    assert_eq!(body, "{\"command\": \"ls\"}");
}

#[test]
fn test_json_body_strips_markdown_fence() {
    let raw = "```json\n{\n  \"command\": \"ls -lah\",\n  \"explanation\": \"List all files with details\"\n}\n```";
    let body = llm_json_body(raw).unwrap();
    assert_eq!(
        body,
        "{\n  \"command\": \"ls -lah\",\n  \"explanation\": \"List all files with details\"\n}"
    );
}

#[test]
fn test_json_body_strips_untagged_fence() {
    let body = llm_json_body("```\n{\"command\": \"ls\"}\n```").unwrap();
    assert_eq!(body, "{\"command\": \"ls\"}");
}

#[test]
fn test_json_body_of_whitespace_is_empty_command() {
    assert!(matches!(llm_json_body("   "), Err(OllamaError::EmptyCommand)));
    assert!(matches!(llm_json_body(""), Err(OllamaError::EmptyCommand)));
}

#[test]
fn test_fields_give_trimmed_ollama_plan() {
    let plan = plan_from_llm_fields(
        Some("  find . -type f -name '*.py' -mtime -2 ".to_string()),
        Some(" Find Python files modified within the last two days. ".to_string()),
    )
    .expect("plan");
    assert_eq!(plan.command, "find . -type f -name '*.py' -mtime -2");
    assert_eq!(
        plan.explanation,
        "Find Python files modified within the last two days."
    );
    assert_eq!(plan.source, CommandSource::Ollama);
}

#[test]
fn test_fields_missing_command() {
    let err = plan_from_llm_fields(None, Some("Only an explanation".to_string())).unwrap_err();
    assert!(matches!(err, OllamaError::MissingCommandField));
}

#[test]
fn test_fields_empty_command() {
    let err = plan_from_llm_fields(Some("   ".to_string()), Some("x".to_string())).unwrap_err();
    assert!(matches!(err, OllamaError::EmptyCommand));
}

#[test]
fn test_fields_default_explanation() {
    let plan = plan_from_llm_fields(Some("ls".to_string()), None).unwrap();
    assert_eq!(plan.explanation, "Generated by Ollama");
    let plan2 = plan_from_llm_fields(Some("ls".to_string()), Some("  ".to_string())).unwrap();
    assert_eq!(plan2.explanation, "Generated by Ollama");
}

#[test]
fn test_json_parse_error_quotes_trimmed_reply() {
    let err = json_parse_error("expected value at line 1 column 1", "  This is not JSON at all ");
    match err {
        OllamaError::JsonParse(m) => assert_eq!(
            m,
            "expected value at line 1 column 1: raw output was: 'This is not JSON at all'"
        ),
        other => panic!("expected JsonParse, got: {:?}", other),
    }
}

#[test]
fn test_ollama_error_messages() {
    assert_eq!(
        OllamaError::Http(404, "not found".to_string()).message(),
        "Ollama returned HTTP error 404: not found"
    );
    assert_eq!(
        OllamaError::EmptyCommand.message(),
        "Ollama returned an empty shell command."
    );
    assert_eq!(
        OllamaError::MissingCommandField.message(),
        "Ollama JSON response was missing the 'command' field."
    );
    assert_eq!(
        OllamaError::Timeout("slow".to_string()).message(),
        "Ollama request timed out while generating a response.\nDetails: slow"
    );
    assert_eq!(
        OllamaError::Connection("refused".to_string()).message(),
        "Could not connect to Ollama. Ensure the Ollama server is running locally (e.g., 'ollama serve').\nDetails: refused"
    );
    assert_eq!(
        OllamaError::JsonParse("bad".to_string()).message(),
        "Failed to parse structured JSON from Ollama.\nDetails: bad"
    );
}
