//! Layered settings and the choice of the agent.
use cargo_hole::agent::codex::{conclude, handle, parse_codex_jsonl, CodexEvents};
use cargo_hole::agent::{
    env_non_empty, Agent, Cli, ConfigRead, EnvLayer, FileConfig, FillSection, ModelConfig,
    ModelSection, DEFAULT_MAX_ATTEMPTS, DEFAULT_MAX_TOKENS,
};

const PATH: &str = "/tmp/crate/.cargo-hole.toml";

/// No environment variable is set.
fn no_env() -> EnvLayer {
    EnvLayer {
        cli: None,
        model: None,
        base_url: None,
        api_key: None,
        max_attempts: None,
        max_tokens: None,
        temperature: None,
    }
}

fn text_at(table: &toml::Table, key: &str) -> Option<String> {
    table.get(key).and_then(|v| v.as_str()).map(|s| s.to_string())
}

fn number_at(table: &toml::Table, key: &str) -> Option<u32> {
    table.get(key).and_then(|v| v.as_integer()).map(|n| n as u32)
}

fn unknown_key(table: &toml::Table, known: &[&str]) -> Option<String> {
    table.keys().find(|k| !known.contains(&k.as_str())).cloned()
}

/// What a config file holding `text` comes to.
fn config_file(text: &str) -> ConfigRead {
    let table: toml::Table = match text.parse() {
        Ok(t) => t,
        Err(e) => {
            let e: toml::de::Error = e;
            return ConfigRead::Invalid(e.to_string());
        }
    };
    if let Some(key) = unknown_key(&table, &["model", "fill"]) {
        return ConfigRead::Invalid(format!("unknown field `{key}`"));
    }
    let mut config = FileConfig {
        model: None,
        fill: None,
    };
    if let Some(section) = table.get("model").and_then(|v| v.as_table()) {
        if let Some(key) = unknown_key(section, &["model", "base_url", "api_key", "api_key_env"]) {
            return ConfigRead::Invalid(format!("unknown field `{key}`"));
        }
        config.model = Some(ModelSection {
            model: text_at(section, "model"),
            base_url: text_at(section, "base_url"),
            api_key: text_at(section, "api_key"),
            api_key_env: text_at(section, "api_key_env"),
        });
    }
    if let Some(section) = table.get("fill").and_then(|v| v.as_table()) {
        config.fill = Some(FillSection {
            max_attempts: number_at(section, "max_attempts"),
            max_tokens: number_at(section, "max_tokens"),
            temperature_bits: section
                .get("temperature")
                .and_then(|v| v.as_float())
                .map(|t| (t as f32).to_bits()),
        });
    }
    ConfigRead::Parsed(config)
}

/// The settings of a crate whose config file holds `text`.
fn load(text: &str) -> ModelConfig {
    ModelConfig::load(PATH, &config_file(text), &None, &no_env()).0
}

/// The settings of a crate without a config file.
fn load_nothing() -> ModelConfig {
    ModelConfig::load(PATH, &ConfigRead::Missing, &None, &no_env()).0
}

#[test]
fn without_a_config_file_the_defaults_stand() {
    let config = load_nothing();
    assert!(
        config.model_name.is_empty(),
        "the CLI's own model is the default"
    );
    assert_eq!(config.max_attempts, DEFAULT_MAX_ATTEMPTS);
    assert_eq!(config.max_tokens, DEFAULT_MAX_TOKENS);
    assert_eq!(f32::from_bits(config.temperature_bits), 0.0);
}

#[test]
fn the_config_is_read_from_the_crate_root_not_the_cwd() {
    // `--path` elsewhere must read elsewhere's config, whatever the shell
    // happens to be sitting in.
    let config = load("[model]\nmodel = \"qwen3.7-max\"\n");
    assert_eq!(config.model_name, "qwen3.7-max");
    assert!(load_nothing().model_name.is_empty());
}

#[test]
fn the_file_is_read_section_by_section() {
    let config = load(
        r#"
            [model]
            model = "qwen3.7-max"
            base_url = "http://127.0.0.1:11434/v1"
            api_key = "sk-from-file"

            [fill]
            max_attempts = 7
            max_tokens = 4096
            temperature = 0.5
            "#,
    );
    assert_eq!(config.model_name, "qwen3.7-max");
    assert_eq!(config.base_url, "http://127.0.0.1:11434/v1");
    assert_eq!(config.api_key, "sk-from-file");
    assert_eq!(config.max_attempts, 7);
    assert_eq!(config.max_tokens, 4096);
    assert_eq!(f32::from_bits(config.temperature_bits), 0.5);
}

#[test]
fn keys_the_file_omits_keep_their_defaults() {
    let config = load("[model]\nmodel = \"qwen3.7-max\"\n");
    assert_eq!(config.model_name, "qwen3.7-max");
    assert!(config.base_url.is_empty());
    assert_eq!(config.max_tokens, DEFAULT_MAX_TOKENS);
}

#[test]
fn a_misspelled_key_is_not_silently_ignored() {
    // The whole file is dropped rather than half-applied: a typo like
    // `[modle]` must not look like a working config.
    let read = config_file("[modle]\nmodel = \"qwen3.7-max\"\n");
    let (config, warnings) = ModelConfig::load(PATH, &read, &None, &no_env());
    assert!(config.model_name.is_empty());
    assert_eq!(
        warnings,
        vec!["warning: ignoring /tmp/crate/.cargo-hole.toml: unknown field `modle`".to_string()]
    );
}

#[test]
fn flags_win_over_the_file() {
    let mut config = load("[model]\nmodel = \"from-file\"\n");
    config.apply_overrides(Some("from-flag"), None, None);
    assert_eq!(config.model_name, "from-flag");
}

#[test]
fn an_empty_flag_does_not_erase_the_file() {
    let mut config = load("[model]\nmodel = \"from-file\"\n");
    config.apply_overrides(Some(""), None, None);
    assert_eq!(config.model_name, "from-file");
}

#[test]
fn an_unknown_cli_is_an_error_not_a_fallback() {
    assert!(Cli::from_name("codex").is_ok());
    assert!(Cli::from_name("Codex").is_ok());
    assert!(Cli::from_name("codxe").is_err());
}

#[test]
fn the_label_distinguishes_a_named_model_from_the_default() {
    let agent = Agent::from_args(Some("codex"), &None, load_nothing(), None, None, None)
        .expect("codex is known");
    assert_eq!(agent.label(), "cli:codex (its own model)");
    assert_eq!(
        agent.with_model("qwen3.7-max").label(),
        "cli:codex:qwen3.7-max"
    );
}

#[test]
fn a_config_chosen_model_reaches_the_agent() {
    let config = load("[model]\nmodel = \"qwen3.7-max\"\n\n[fill]\nmax_attempts = 9\n");
    let agent =
        Agent::from_args(None, &None, config, None, None, None).expect("codex is the fallback");
    assert_eq!(agent.label(), "cli:codex:qwen3.7-max");
    assert_eq!(agent.max_attempts(), 9, "the config sets the retry budget");
}

#[test]
fn every_layer_wins_over_the_one_below_it() {
    let read = config_file("[model]\nmodel = \"from-file\"\nbase_url = \"file-url\"\n");
    let mut env = no_env();
    env.model = Some("from-env".to_string());
    env.base_url = Some(String::new());
    let (mut config, warnings) = ModelConfig::load(PATH, &read, &None, &env);
    assert!(warnings.is_empty());
    assert_eq!(config.model_name, "from-env");
    assert_eq!(config.base_url, "file-url", "an empty variable changes nothing");
    config.apply_overrides(None, Some("flag-url"), Some("sk-flag"));
    assert_eq!(config.model_name, "from-env");
    assert_eq!(config.base_url, "flag-url");
    assert_eq!(config.api_key, "sk-flag");
}

#[test]
fn a_named_variable_wins_over_a_literal_key() {
    let read = config_file("[model]\napi_key = \"sk-literal\"\napi_key_env = \"MY_API_KEY\"\n");
    let key = Some("sk-named".to_string());
    let (config, warnings) = ModelConfig::load(PATH, &read, &key, &no_env());
    assert_eq!(config.api_key, "sk-named");
    assert!(warnings.is_empty());

    let (config, warnings) = ModelConfig::load(PATH, &read, &None, &no_env());
    assert_eq!(config.api_key, "sk-literal");
    assert_eq!(warnings.len(), 1, "{warnings:?}");
    assert!(warnings[0].contains("MY_API_KEY"), "{warnings:?}");
}

#[test]
fn an_unreadable_file_leaves_the_defaults() {
    let read = ConfigRead::Unreadable("permission denied".to_string());
    let (config, warnings) = ModelConfig::load(PATH, &read, &None, &no_env());
    assert!(config.model_name.is_empty());
    assert_eq!(warnings.len(), 1);
    assert!(warnings[0].contains("permission denied"), "{warnings:?}");
}

#[test]
fn a_number_that_does_not_parse_is_warned_about_and_dropped() {
    let mut env = no_env();
    env.max_attempts = Some("5".to_string());
    env.max_tokens = Some("many".to_string());
    env.temperature = Some(("0.25".to_string(), Ok(0.25f32.to_bits())));
    let (config, warnings) = ModelConfig::from_env(&env);
    assert_eq!(config.max_attempts, 5);
    assert_eq!(config.max_tokens, DEFAULT_MAX_TOKENS);
    assert_eq!(f32::from_bits(config.temperature_bits), 0.25);
    assert_eq!(warnings.len(), 1);
    assert!(warnings[0].contains("CARGO_HOLE_MAX_TOKENS"), "{warnings:?}");
    assert!(warnings[0].contains("invalid digit found in string"), "{warnings:?}");
}

#[test]
fn an_empty_variable_is_as_good_as_none() {
    assert_eq!(env_non_empty(&Some(String::new())), None);
    assert_eq!(env_non_empty(&None), None);
    assert_eq!(env_non_empty(&Some("x".to_string())), Some("x".to_string()));
}

#[test]
fn the_environment_names_the_cli_when_no_flag_does() {
    let err = Agent::from_args(None, &Some("codxe".to_string()), load_nothing(), None, None, None)
        .expect_err("no such CLI");
    assert!(err.contains("codxe"), "{err}");
    let agent = Agent::from_args(
        Some("codex"),
        &Some("codxe".to_string()),
        load_nothing(),
        None,
        None,
        None,
    );
    assert!(agent.is_ok(), "the flag wins");
}

#[test]
fn the_cli_is_asked_for_json_events() {
    let agent = Agent::from_args(None, &None, load_nothing(), Some("qwen3.7-max"), None, None)
        .expect("codex is the fallback");
    let arguments = agent.handle().expect("codex can be driven");
    assert!(arguments.contains(&"exec".to_string()), "{arguments:?}");
    assert!(arguments.contains(&"--json".to_string()), "{arguments:?}");
    assert!(arguments.contains(&"qwen3.7-max".to_string()), "{arguments:?}");
}

#[test]
fn a_built_in_agent_has_nothing_to_run() {
    let (agent, _) = Agent::built_in(&no_env());
    assert!(agent.handle().is_err());
}

#[test]
fn the_last_message_of_the_stream_is_the_reply() {
    let stdout = "{\"type\":\"thread.started\"}\n\
        {\"type\":\"item.completed\",\"item\":{\"type\":\"agent_message\",\"text\":\"one\"}}\n\
        not json\n\
        {\"type\":\"item.completed\",\"item\":{\"type\":\"agent_message\",\"text\":\"two\"}}\n";
    let events = parse_codex_jsonl(stdout);
    assert_eq!(events.message.as_deref(), Some("two"));
    assert!(events.parsed_any);
    assert_eq!(handle(stdout, None).0, Ok("two".to_string()));
}

#[test]
fn a_failed_turn_is_a_warning() {
    let stdout = "{\"type\":\"turn.failed\",\"error\":{\"message\":\"rate limited\"}}\n\
        {\"type\":\"error\",\"message\":\"stream closed\"}\n";
    let events = parse_codex_jsonl(stdout);
    assert_eq!(events.message, None);
    assert_eq!(events.warnings.len(), 2, "{:?}", events.warnings);
    assert!(events.diagnostics().contains("rate limited"));
    assert!(events.diagnostics().contains("stream closed"));
    assert!(handle(stdout, None).0.is_err());
}

#[test]
fn output_that_holds_no_event_is_no_reply() {
    let events = parse_codex_jsonl("plain text\n");
    assert_eq!(events, CodexEvents::new());
    let (reply, _) = conclude(&events, "plain text\n", Some("exit status: 1"));
    assert_eq!(
        reply,
        Err("`codex exec` exited with exit status: 1".to_string())
    );
    let (reply, _) = conclude(&events, "plain text\n", None);
    assert_eq!(reply, Ok("plain text".to_string()), "an older CLI just prints");
}
