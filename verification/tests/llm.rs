use gist_summary::llm::LlmSettings;

#[test]
fn defaults_when_unset() {
    let s = LlmSettings::from_env_values(None, None, None);
    assert_eq!(s.base_url, "http://model-runner.docker.internal/engines/v1");
    assert_eq!(s.api_key, "local");
    assert_eq!(s.model, "ai/llama3.2:latest");
}

#[test]
fn configured_values_win() {
    let s = LlmSettings::from_env_values(Some("b".to_string()), Some("k".to_string()), Some("m".to_string()));
    assert_eq!((s.base_url.as_str(), s.api_key.as_str(), s.model.as_str()), ("b", "k", "m"));
}
