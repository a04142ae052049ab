use gist_summary::ollama::{
    api_url, base_url, check_model_listing, home_var, host_env, listed_model_names, model,
    model_is_listed, models_dir,
    pull_line_step, pull_step, waiting_message, HealthProbe, HealthStep, ModelCheck, ModelsDir,
    PullStep,
};

#[test]
fn ollama_addresses() {
    assert_eq!(base_url(), "http://127.0.0.1:11434/v1");
    assert_eq!(host_env(), "127.0.0.1:11434");
    assert_eq!(api_url(), "http://127.0.0.1:11434/api");
}

#[test]
fn model_choice() {
    assert_eq!(model(None), "gemma3:1b");
    assert_eq!(model(Some("llama3".to_string())), "llama3");
}

#[test]
fn models_directory() {
    assert_eq!(home_var(true), "USERPROFILE");
    assert_eq!(home_var(false), "HOME");
    assert_eq!(models_dir(true, Some("/h".to_string())), ModelsDir::Bundled);
    assert_eq!(models_dir(false, Some("/h".to_string())), ModelsDir::UnderHome("/h".to_string()));
    assert_eq!(models_dir(false, None), ModelsDir::Relative);
}

#[test]
fn health_gives_up_after_sixty() {
    let mut probe = HealthProbe::new();
    let mut announced = Vec::new();
    let mut steps = 0;
    loop {
        let attempt = probe.attempt;
        steps += 1;
        match probe.observe(false) {
            HealthStep::Ready => panic!("never ready"),
            HealthStep::Wait { announce, last } => {
                if announce {
                    announced.push(attempt);
                }
                if last {
                    break;
                }
            }
        }
    }
    assert_eq!(steps, 60);
    assert_eq!(announced, vec![10, 20, 30, 40, 50, 60]);
    assert_eq!(waiting_message(10), "[ollama] waiting for server (attempt 10/60)...");
}

#[test]
fn health_ready() {
    let mut probe = HealthProbe::new();
    assert_eq!(probe.observe(false), HealthStep::Wait { announce: false, last: false });
    assert_eq!(probe.observe(true), HealthStep::Ready);
    assert_eq!(probe.attempt, 2);
}

#[test]
fn model_names() {
    let names = vec!["llama3:latest".to_string(), "gemma3:1b".to_string()];
    assert!(model_is_listed(&names, "gemma3:1b"));
    assert!(model_is_listed(&names, "llama3"));
    assert!(model_is_listed(&names, "gemma3"));
    assert!(!model_is_listed(&names, "gemma"));
    assert!(!model_is_listed(&names, "llama"));
    assert!(!model_is_listed(&vec![], "gemma3:1b"));
}

#[test]
fn model_listing() {
    assert_eq!(check_model_listing(r#"{"models":[{"name":"gemma3:1b"}]}"#, "gemma3:1b"), ModelCheck::Available);
    assert_eq!(check_model_listing(r#"{"models":[{"name":"other"},{"size":3}]}"#, "gemma3:1b"), ModelCheck::Missing);
    assert_eq!(check_model_listing(r#"{}"#, "gemma3:1b"), ModelCheck::Missing);
    assert_eq!(check_model_listing("not json", "gemma3:1b"), ModelCheck::Unreadable);
}

#[test]
fn pull_lines() {
    assert_eq!(
        pull_line_step(r#" {"status":"pulling","completed":2500000,"total":4000000} "#),
        PullStep::Progress { status: "pulling".to_string(), done: 2500000, total: 4000000, done_mb: 2, total_mb: 4 }
    );
    assert_eq!(
        pull_line_step(r#"{"error":"boom"}"#),
        PullStep::Fail(r#"model pull error: {"error":"boom"}"#.to_string())
    );
    assert_eq!(pull_line_step(r#"{"status":"success"}"#), PullStep::Status("success".to_string()));
    assert_eq!(pull_line_step("garbage"), PullStep::Skip);
    assert_eq!(pull_line_step(r#"{"status":""}"#), PullStep::Skip);
    assert_eq!(pull_line_step(r#"{"status":"x","completed":5,"total":0}"#), PullStep::Status("x".to_string()));
    assert_eq!(pull_step("l", false, None, Some(1), Some(2)), PullStep::Progress { status: String::new(), done: 1, total: 2, done_mb: 0, total_mb: 0 });
}

#[test]
fn listing_names_in_order() {
    let body = r#"{"models":[{"name":"b:1"},{"size":3},{"name":7},{"name":"a:2"}]}"#;
    assert_eq!(listed_model_names(body), Some(vec!["b:1".to_string(), "a:2".to_string()]));
    assert_eq!(listed_model_names(r#"{"models":"none"}"#), Some(vec![]));
    assert_eq!(listed_model_names(r#"[1,2]"#), Some(vec![]));
    assert_eq!(listed_model_names("{"), None);
}

#[test]
fn listing_name_with_tag_only() {
    assert_eq!(check_model_listing(r#"{"models":[{"name":"gemma3:4b"}]}"#, "gemma3"), ModelCheck::Available);
    assert_eq!(check_model_listing(r#"{"models":[{"name":"gemma3x"}]}"#, "gemma3"), ModelCheck::Missing);
    assert_eq!(check_model_listing(r#"{"models":[{"model":"gemma3"}]}"#, "gemma3"), ModelCheck::Missing);
}

#[test]
fn pull_line_error_wins() {
    assert_eq!(
        pull_line_step(r#"{"status":"pulling","error":null,"completed":1,"total":2}"#),
        PullStep::Fail(r#"model pull error: {"status":"pulling","error":null,"completed":1,"total":2}"#.to_string())
    );
    assert_eq!(pull_line_step(r#"{"status":"a","completed":-1,"total":2}"#), PullStep::Status("a".to_string()));
    assert_eq!(pull_line_step(r#"{"status":"a","completed":1.5,"total":2}"#), PullStep::Status("a".to_string()));
}
