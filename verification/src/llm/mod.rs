pub mod ollama;

pub use ollama::{
    json_parse_error, llm_json_body, plan_from_llm_fields, OllamaConfig, OllamaError,
    DEFAULT_OLLAMA_BASE_URL, DEFAULT_OLLAMA_MODEL, SYSTEM_PROMPT,
};
