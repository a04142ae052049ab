//! Settings of the language model client.

use vstd::prelude::*;

verus! {

/// Where the OpenAI-compatible model is, the key to send it, and which
/// model to ask.
#[derive(Debug)]
pub struct LlmSettings {
    pub base_url: String,
    pub api_key: String,
    pub model: String,
}

/// The configured value, or the default when none is configured.
fn or_default(value: Option<String>, default: &str) -> (r: String)
    ensures
        value is Some ==> r == value->0,
        value is None ==> r@ == default@,
{
    match value {
        Some(v) => v,
        None => String::from_str(default),
    }
}

impl LlmSettings {
    /// The settings from the values of `OPENAI_API_BASE_URL`,
    /// `OPENAI_API_KEY` and `OPENAI_MODEL`, each falling back to its
    /// default when not set: the local model runner, the key `local`, and
    /// `ai/llama3.2:latest`.
    pub fn from_env_values(
        base_url: Option<String>,
        api_key: Option<String>,
        model: Option<String>,
    ) -> (r: LlmSettings)
        ensures
            base_url is Some ==> r.base_url == base_url->0,
            base_url is None ==> r.base_url@ == "http://model-runner.docker.internal/engines/v1"@,
            api_key is Some ==> r.api_key == api_key->0,
            api_key is None ==> r.api_key@ == "local"@,
            model is Some ==> r.model == model->0,
            model is None ==> r.model@ == "ai/llama3.2:latest"@,
    {
        LlmSettings {
            base_url: or_default(base_url, "http://model-runner.docker.internal/engines/v1"),
            api_key: or_default(api_key, "local"),
            model: or_default(model, "ai/llama3.2:latest"),
        }
    }
}

} // verus!
