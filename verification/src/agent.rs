//! The agent that answers prompts, and the settings it runs with.
//!
//! Settings come in layers, most specific last: the built-in defaults, then
//! `<root>/.cargo-hole.toml` if there is one, then the `CARGO_HOLE_*`
//! variables, then the command line flags.
use vstd::prelude::*;

use crate::text::{
    blank, is_blank, lowercase, lowered, opt_str_view, opt_view, owned, same, trim, trim_of,
    unsigned_of, views,
};

pub mod codex;

verus! {

/// The config file, looked for in the crate root being worked on -- the
/// directory `--path` names, not the shell's working directory.
pub const CONFIG_FILE: &'static str = ".cargo-hole.toml";

/// The agent CLI to drive when neither the flag nor the config says otherwise.
pub const DEFAULT_CLI: &'static str = "codex";

/// Attempts per hole before giving up, when nothing overrides it.
///
/// Each attempt is a model call, so this is deliberately small: a model that
/// got it wrong three times will not be fixed by seven more identical prompts.
pub const DEFAULT_MAX_ATTEMPTS: u32 = 3;

pub const DEFAULT_MAX_TOKENS: u32 = 2048;

/// Environment variables, the layer between the config file and the flags.
pub const ENV_CLI: &'static str = "CARGO_HOLE_CLI";

pub const ENV_MODEL: &'static str = "CARGO_HOLE_MODEL";

pub const ENV_BASE_URL: &'static str = "CARGO_HOLE_BASE_URL";

pub const ENV_API_KEY: &'static str = "CARGO_HOLE_API_KEY";

pub const ENV_MAX_ATTEMPTS: &'static str = "CARGO_HOLE_MAX_ATTEMPTS";

pub const ENV_MAX_TOKENS: &'static str = "CARGO_HOLE_MAX_TOKENS";

pub const ENV_TEMPERATURE: &'static str = "CARGO_HOLE_TEMPERATURE";

#[derive(Debug)]
pub enum Agent {
    Cli(Cli, ModelConfig),
    BuiltIn(ModelConfig),
}

#[derive(Debug, Clone, Copy, PartialEq, Eq, Structural)]
pub enum Cli {
    Codex,
}

impl Cli {
    /// The CLI named by `name`, if it is one we know how to drive.
    ///
    /// An unknown name is an error rather than a fallback: `--cli codxe` should
    /// complain, not quietly run a different agent.
    pub fn from_name(name: &str) -> (r: Result<Cli, String>)
        ensures
            match r {
                Ok(cli) => cli == Cli::Codex && lowered(trim_of(name@)) == "codex"@,
                Err(m) => lowered(trim_of(name@)) != "codex"@ && m@ == "unknown cli `"@ + lowered(
                    trim_of(name@),
                ) + "`; known: codex"@,
            },
    {
        let trimmed = trim(name);
        let other = lowercase(trimmed.as_str());
        if same(other.as_str(), "codex") {
            return Ok(Cli::Codex);
        }
        let mut m = owned("unknown cli `");
        m.push_str(other.as_str());
        m.push_str("`; known: codex");
        Err(m)
    }

    /// The name of the CLI.
    pub fn name(&self) -> (r: &'static str)
        ensures
            r@ == "codex"@,
    {
        match self {
            Cli::Codex => "codex",
        }
    }
}

/// The settings an agent runs with.
#[derive(Debug)]
pub struct ModelConfig {
    pub base_url: String,
    pub model_name: String,
    pub api_key: String,
    /// Attempts per hole before giving up.
    pub max_attempts: u32,
    /// Upper bound on generated tokens.
    pub max_tokens: u32,
    /// Sampling temperature, as the bits of a 32-bit float. Zero keeps runs
    /// reproducible.
    pub temperature_bits: u32,
}

/// Settings as plain text and numbers.
#[verifier::ext_equal]
pub struct ConfigView {
    pub base_url: Seq<char>,
    pub model_name: Seq<char>,
    pub api_key: Seq<char>,
    pub max_attempts: u32,
    pub max_tokens: u32,
    pub temperature_bits: u32,
}

impl View for ModelConfig {
    type V = ConfigView;

    open spec fn view(&self) -> ConfigView {
        ConfigView {
            base_url: self.base_url@,
            model_name: self.model_name@,
            api_key: self.api_key@,
            max_attempts: self.max_attempts,
            max_tokens: self.max_tokens,
            temperature_bits: self.temperature_bits,
        }
    }
}

/// The `[model]` section of `.cargo-hole.toml`.
#[derive(Debug)]
pub struct ModelSection {
    /// Model name. Empty or absent defers to the agent CLI's own config.
    pub model: Option<String>,
    /// Base URL, for providers that need one.
    pub base_url: Option<String>,
    /// Literal key. Prefer `api_key_env`, so the file stays safe to commit.
    pub api_key: Option<String>,
    /// Name of the environment variable holding the key.
    pub api_key_env: Option<String>,
}

/// The `[fill]` section of `.cargo-hole.toml`.
#[derive(Debug)]
pub struct FillSection {
    pub max_attempts: Option<u32>,
    pub max_tokens: Option<u32>,
    pub temperature_bits: Option<u32>,
}

/// The whole config file.
#[derive(Debug)]
pub struct FileConfig {
    pub model: Option<ModelSection>,
    pub fill: Option<FillSection>,
}

/// What became of reading the config file.
#[derive(Debug)]
pub enum ConfigRead {
    /// There is none. Every key has a default, so a crate without one still
    /// runs.
    Missing,
    /// It could not be read.
    Unreadable(String),
    /// It could not be parsed. The whole file is dropped rather than
    /// half-applied: a typo like `[modle]` must not look like a working config.
    Invalid(String),
    Parsed(FileConfig),
}

/// The `CARGO_HOLE_*` variables, as far as they are set. A temperature comes
/// with the bits it stands for, or why it stands for none.
#[derive(Debug)]
pub struct EnvLayer {
    pub cli: Option<String>,
    pub model: Option<String>,
    pub base_url: Option<String>,
    pub api_key: Option<String>,
    pub max_attempts: Option<String>,
    pub max_tokens: Option<String>,
    pub temperature: Option<(String, Result<u32, String>)>,
}

// ---------------------------------------------------------------------------
// What the layers mean
// ---------------------------------------------------------------------------

/// The built-in defaults.
pub open spec fn default_config() -> ConfigView {
    ConfigView {
        base_url: seq![],
        model_name: seq![],
        api_key: seq![],
        max_attempts: DEFAULT_MAX_ATTEMPTS,
        max_tokens: DEFAULT_MAX_TOKENS,
        temperature_bits: 0,
    }
}

/// A text that takes the place of another where it is there.
pub open spec fn text_or(new: Option<Seq<char>>, old: Seq<char>) -> Seq<char> {
    match new {
        Some(t) => t,
        None => old,
    }
}

/// A number that takes the place of another where it is there.
pub open spec fn number_or(new: Option<u32>, old: u32) -> u32 {
    match new {
        Some(n) => n,
        None => old,
    }
}

/// A value, treating unset and blank alike.
pub open spec fn non_blank(v: Option<Seq<char>>) -> Option<Seq<char>> {
    match v {
        Some(t) => if is_blank(t) {
            None
        } else {
            Some(t)
        },
        None => None,
    }
}

/// The settings with the `[model]` section applied, given what the variable it
/// names for the key is set to. That variable wins over a literal key.
pub open spec fn with_model_section(
    c: ConfigView,
    s: ModelSection,
    key: Option<Seq<char>>,
) -> ConfigView {
    ConfigView {
        model_name: text_or(opt_view(s.model), c.model_name),
        base_url: text_or(opt_view(s.base_url), c.base_url),
        api_key: text_or(
            if s.api_key_env is Some {
                non_blank(key)
            } else {
                None
            },
            text_or(opt_view(s.api_key), c.api_key),
        ),
        ..c
    }
}

/// The settings with the `[fill]` section applied.
pub open spec fn with_fill_section(c: ConfigView, s: FillSection) -> ConfigView {
    ConfigView {
        max_attempts: number_or(s.max_attempts, c.max_attempts),
        max_tokens: number_or(s.max_tokens, c.max_tokens),
        temperature_bits: number_or(s.temperature_bits, c.temperature_bits),
        ..c
    }
}

/// The settings of a config file, over the defaults.
pub open spec fn config_of_file(read: ConfigRead, key: Option<Seq<char>>) -> ConfigView {
    match read {
        ConfigRead::Parsed(file) => {
            let c = match file.model {
                Some(s) => with_model_section(default_config(), s, key),
                None => default_config(),
            };
            match file.fill {
                Some(s) => with_fill_section(c, s),
                None => c,
            }
        },
        _ => default_config(),
    }
}

/// A number a variable is set to, if it is set to one.
pub open spec fn env_number(v: Option<Seq<char>>) -> Option<u32> {
    match non_blank(v) {
        Some(t) => match unsigned_of(t, u32::MAX as nat) {
            Some(n) => Some(n as u32),
            None => None,
        },
        None => None,
    }
}

/// The temperature that is set, if a usable one is.
pub open spec fn env_temperature(v: Option<(String, Result<u32, String>)>) -> Option<u32> {
    match v {
        Some((text, parsed)) => if is_blank(text@) {
            None
        } else {
            match parsed {
                Ok(bits) => Some(bits),
                Err(_) => None,
            }
        },
        None => None,
    }
}

/// The settings with the environment applied. A blank variable counts as unset:
/// `CARGO_HOLE_MODEL=` in a shell profile should not erase a model named in the
/// config.
pub open spec fn with_env(c: ConfigView, env: EnvLayer) -> ConfigView {
    ConfigView {
        model_name: text_or(non_blank(opt_view(env.model)), c.model_name),
        base_url: text_or(non_blank(opt_view(env.base_url)), c.base_url),
        api_key: text_or(non_blank(opt_view(env.api_key)), c.api_key),
        max_attempts: number_or(env_number(opt_view(env.max_attempts)), c.max_attempts),
        max_tokens: number_or(env_number(opt_view(env.max_tokens)), c.max_tokens),
        temperature_bits: number_or(env_temperature(env.temperature), c.temperature_bits),
    }
}

/// The settings with the flags applied; a blank flag leaves what was resolved.
pub open spec fn with_flags(
    c: ConfigView,
    model: Option<Seq<char>>,
    base_url: Option<Seq<char>>,
    api_key: Option<Seq<char>>,
) -> ConfigView {
    ConfigView {
        model_name: text_or(non_blank(model), c.model_name),
        base_url: text_or(non_blank(base_url), c.base_url),
        api_key: text_or(non_blank(api_key), c.api_key),
        ..c
    }
}

/// What the standard library says about a text that is no 32-bit number.
pub uninterp spec fn parse_u32_problem(text: Seq<char>) -> Seq<char>;

/// The standard library's `str::parse` into a `u32`: an optional `+` followed by
/// digits only, of a value that fits. What it says about any other text is a
/// function of the text.
#[verifier::external_body]
fn parse_u32(text: &str) -> (r: Result<u32, String>)
    ensures
        match r {
            Ok(n) => unsigned_of(text@, u32::MAX as nat) == Some(n as nat),
            Err(e) => unsigned_of(text@, u32::MAX as nat) is None && e@ == parse_u32_problem(
                text@,
            ),
        },
{
    text.parse::<u32>().map_err(|e| e.to_string())
}

/// The warning about a variable that is ignored.
pub open spec fn ignored_text(name: Seq<char>, why: Seq<char>) -> Seq<char> {
    "warning: ignoring "@ + name + ": "@ + why
}

/// The warning about a number that does not parse, if there is one.
pub open spec fn number_warning(name: Seq<char>, v: Option<Seq<char>>) -> Seq<Seq<char>> {
    match non_blank(v) {
        Some(t) => if unsigned_of(t, u32::MAX as nat) is None {
            seq![ignored_text(name, parse_u32_problem(t))]
        } else {
            seq![]
        },
        None => seq![],
    }
}

/// The warning about a temperature that does not parse, if there is one.
pub open spec fn temperature_warning(v: Option<(String, Result<u32, String>)>) -> Seq<Seq<char>> {
    match v {
        Some((text, parsed)) => if is_blank(text@) {
            seq![]
        } else {
            match parsed {
                Ok(_) => seq![],
                Err(e) => seq![ignored_text(ENV_TEMPERATURE@, e@)],
            }
        },
        None => seq![],
    }
}

/// The warnings about the environment.
pub open spec fn env_warnings(env: EnvLayer) -> Seq<Seq<char>> {
    number_warning(ENV_MAX_ATTEMPTS@, opt_view(env.max_attempts)) + number_warning(
        ENV_MAX_TOKENS@,
        opt_view(env.max_tokens),
    ) + temperature_warning(env.temperature)
}

/// The warning about a key variable that is not set, if it is named.
pub open spec fn key_warning(s: ModelSection, key: Option<Seq<char>>) -> Seq<Seq<char>> {
    match s.api_key_env {
        Some(var) => if non_blank(key) is None {
            seq![
                "warning: ignoring api_key_env: `"@ + var@ + "` is not set (or is empty)"@,
            ]
        } else {
            seq![]
        },
        None => seq![],
    }
}

/// The warnings about the config file.
pub open spec fn file_warnings(path: Seq<char>, read: ConfigRead, key: Option<Seq<char>>) -> Seq<
    Seq<char>,
> {
    match read {
        ConfigRead::Missing => seq![],
        ConfigRead::Unreadable(e) => seq!["warning: cannot read "@ + path + ": "@ + e@],
        ConfigRead::Invalid(e) => seq!["warning: ignoring "@ + path + ": "@ + e@],
        ConfigRead::Parsed(file) => match file.model {
            Some(s) => key_warning(s, key),
            None => seq![],
        },
    }
}

// ---------------------------------------------------------------------------
// Layering
// ---------------------------------------------------------------------------

/// A value, treating unset and blank alike.
pub fn env_non_empty(value: &Option<String>) -> (r: Option<String>)
    ensures
        opt_view(r) == non_blank(opt_view(*value)),
{
    match value {
        Some(v) => if blank(v.as_str()) {
            None
        } else {
            Some(v.clone())
        },
        None => None,
    }
}

fn warn_ignored(name: &str, why: &str) -> (r: String)
    ensures
        r@ == ignored_text(name@, why@),
{
    let mut m = owned("warning: ignoring ");
    m.push_str(name);
    m.push_str(": ");
    m.push_str(why);
    m
}

/// The number a variable is set to; where it is set to something else, a
/// warning.
fn read_number(name: &str, value: &Option<String>, warnings: &mut Vec<String>) -> (r: Option<u32>)
    ensures
        r == env_number(opt_view(*value)),
        views(final(warnings)@) == views(old(warnings)@) + number_warning(
            name@,
            opt_view(*value),
        ),
{
    let ghost before = views(warnings@);
    proof {
        assert(before + Seq::<Seq<char>>::empty() =~= before);
    }
    match env_non_empty(value) {
        None => None,
        Some(t) => match parse_u32(t.as_str()) {
            Ok(n) => Some(n),
            Err(e) => {
                let w = warn_ignored(name, e.as_str());
                proof {
                    assert(views(warnings@.push(w)) =~= before + seq![w@]);
                }
                warnings.push(w);
                None
            },
        },
    }
}

impl ModelConfig {
    /// The built-in defaults.
    ///
    /// An empty `model_name` means "whatever the CLI is already configured to
    /// use", which is the right default: an agent CLI has its own config naming
    /// a model, and silently overriding it would be surprising.
    pub fn defaults() -> (r: ModelConfig)
        ensures
            r@ == default_config(),
    {
        ModelConfig {
            base_url: String::new(),
            model_name: String::new(),
            api_key: String::new(),
            max_attempts: DEFAULT_MAX_ATTEMPTS,
            max_tokens: DEFAULT_MAX_TOKENS,
            temperature_bits: 0,
        }
    }

    /// Apply the `[model]` section, given what the variable it names for the key
    /// is set to.
    ///
    /// A literal key is honoured, but `api_key_env` wins: the file is meant to be
    /// committed, so naming the variable is the safer spelling, and having both
    /// means the environment copy is the newer one.
    pub fn apply_model(&mut self, section: &ModelSection, key: &Option<String>) -> (r: Vec<String>)
        ensures
            final(self)@ == with_model_section(old(self)@, *section, opt_view(*key)),
            views(r@) == key_warning(*section, opt_view(*key)),
    {
        let mut warnings: Vec<String> = Vec::new();
        proof {
            assert(views(warnings@) =~= Seq::<Seq<char>>::empty());
        }
        if let Some(model) = &section.model {
            self.model_name = model.clone();
        }
        if let Some(base_url) = &section.base_url {
            self.base_url = base_url.clone();
        }
        if let Some(literal) = &section.api_key {
            self.api_key = literal.clone();
        }
        if let Some(var) = &section.api_key_env {
            match env_non_empty(key) {
                Some(k) => {
                    self.api_key = k;
                },
                None => {
                    let mut w = owned("warning: ignoring api_key_env: `");
                    w.push_str(var.as_str());
                    w.push_str("` is not set (or is empty)");
                    proof {
                        assert(views(warnings@.push(w)) =~= seq![w@]);
                    }
                    warnings.push(w);
                },
            }
        }
        warnings
    }

    /// Apply the `[fill]` section.
    pub fn apply_fill(&mut self, section: &FillSection)
        ensures
            final(self)@ == with_fill_section(old(self)@, *section),
    {
        if let Some(attempts) = section.max_attempts {
            self.max_attempts = attempts;
        }
        if let Some(tokens) = section.max_tokens {
            self.max_tokens = tokens;
        }
        if let Some(bits) = section.temperature_bits {
            self.temperature_bits = bits;
        }
    }

    /// Apply the environment, and return a warning for every value that does not
    /// parse.
    pub fn apply_env(&mut self, env: &EnvLayer) -> (r: Vec<String>)
        ensures
            final(self)@ == with_env(old(self)@, *env),
            views(r@) == env_warnings(*env),
    {
        let mut warnings: Vec<String> = Vec::new();
        let ghost none = views(warnings@);
        if let Some(value) = env_non_empty(&env.model) {
            self.model_name = value;
        }
        if let Some(value) = env_non_empty(&env.base_url) {
            self.base_url = value;
        }
        if let Some(value) = env_non_empty(&env.api_key) {
            self.api_key = value;
        }
        if let Some(attempts) = read_number(ENV_MAX_ATTEMPTS, &env.max_attempts, &mut warnings) {
            self.max_attempts = attempts;
        }
        if let Some(tokens) = read_number(ENV_MAX_TOKENS, &env.max_tokens, &mut warnings) {
            self.max_tokens = tokens;
        }
        let ghost numbers = views(warnings@);
        proof {
            assert(none =~= Seq::<Seq<char>>::empty());
            assert(numbers + Seq::<Seq<char>>::empty() =~= numbers);
        }
        if let Some((text, parsed)) = &env.temperature {
            if !blank(text.as_str()) {
                match parsed {
                    Ok(bits) => {
                        self.temperature_bits = *bits;
                    },
                    Err(e) => {
                        let w = warn_ignored(ENV_TEMPERATURE, e.as_str());
                        proof {
                            assert(views(warnings@.push(w)) =~= numbers + seq![w@]);
                        }
                        warnings.push(w);
                    },
                }
            }
        }
        proof {
            assert(views(warnings@) =~= env_warnings(*env));
            assert(self@ =~= with_env(old(self)@, *env));
        }
        warnings
    }

    /// The environment over the defaults, with no config file involved.
    pub fn from_env(env: &EnvLayer) -> (r: (ModelConfig, Vec<String>))
        ensures
            r.0@ == with_env(default_config(), *env),
            views(r.1@) == env_warnings(*env),
    {
        let mut config = ModelConfig::defaults();
        let warnings = config.apply_env(env);
        (config, warnings)
    }

    /// Settings read from a `.cargo-hole.toml`, given what the variable that its
    /// `api_key_env` names is set to.
    ///
    /// Only the keys that are present are honoured, so a file may name just the
    /// model and nothing else. A broken file is reported rather than fatal:
    /// `list` -- which needs no model at all -- should not refuse to run over it.
    pub fn from_config(path: &str, read: &ConfigRead, key: &Option<String>) -> (r: (
        ModelConfig,
        Vec<String>,
    ))
        ensures
            r.0@ == config_of_file(*read, opt_view(*key)),
            views(r.1@) == file_warnings(path@, *read, opt_view(*key)),
    {
        let mut config = ModelConfig::defaults();
        let mut warnings: Vec<String> = Vec::new();
        proof {
            assert(views(warnings@) =~= Seq::<Seq<char>>::empty());
        }
        match read {
            ConfigRead::Missing => {},
            ConfigRead::Unreadable(e) => {
                let mut w = owned("warning: cannot read ");
                w.push_str(path);
                w.push_str(": ");
                w.push_str(e.as_str());
                proof {
                    assert(views(warnings@.push(w)) =~= seq![w@]);
                }
                warnings.push(w);
            },
            ConfigRead::Invalid(e) => {
                let w = warn_ignored(path, e.as_str());
                proof {
                    assert(views(warnings@.push(w)) =~= seq![w@]);
                }
                warnings.push(w);
            },
            ConfigRead::Parsed(file) => {
                if let Some(section) = &file.model {
                    warnings = config.apply_model(section, key);
                }
                if let Some(section) = &file.fill {
                    config.apply_fill(section);
                }
            },
        }
        (config, warnings)
    }

    /// The settings a run should use: the defaults, the config file, then the
    /// environment.
    pub fn load(path: &str, read: &ConfigRead, key: &Option<String>, env: &EnvLayer) -> (r: (
        ModelConfig,
        Vec<String>,
    ))
        ensures
            r.0@ == with_env(config_of_file(*read, opt_view(*key)), *env),
            views(r.1@) == file_warnings(path@, *read, opt_view(*key)) + env_warnings(*env),
    {
        let (mut config, mut warnings) = ModelConfig::from_config(path, read, key);
        let ghost first = views(warnings@);
        let more = config.apply_env(env);
        let ghost second = views(more@);
        let mut i: usize = 0;
        proof {
            assert(first + second.take(0) =~= first);
        }
        while i < more.len()
            invariant
                i <= more@.len(),
                second == views(more@),
                views(warnings@) == first + second.take(i as int),
            decreases more.len() - i,
        {
            let w = more[i].clone();
            proof {
                assert(views(warnings@.push(w)) =~= views(warnings@).push(w@));
                assert(first + second.take(i + 1) =~= (first + second.take(i as int)).push(w@));
            }
            warnings.push(w);
            i = i + 1;
        }
        proof {
            assert(second.take(more@.len() as int) =~= second);
        }
        (config, warnings)
    }

    /// Apply the command line on top of everything else.
    ///
    /// The flags win over both the config file and the environment, and an
    /// absent flag leaves the value that was already resolved in place -- so
    /// `--model ""` still defers, exactly as [`Agent::with_model`] does.
    pub fn apply_overrides(
        &mut self,
        model: Option<&str>,
        base_url: Option<&str>,
        api_key: Option<&str>,
    )
        ensures
            final(self)@ == with_flags(
                old(self)@,
                opt_str_view(model),
                opt_str_view(base_url),
                opt_str_view(api_key),
            ),
    {
        if let Some(m) = model {
            if !blank(m) {
                self.model_name = owned(m);
            }
        }
        if let Some(u) = base_url {
            if !blank(u) {
                self.base_url = owned(u);
            }
        }
        if let Some(k) = api_key {
            if !blank(k) {
                self.api_key = owned(k);
            }
        }
    }
}

/// A later layer wins where it says something, and only there: with no flag and
/// no variable set, the file decides; where the file is silent, the defaults do.
pub proof fn lemma_layers(read: ConfigRead, key: Option<Seq<char>>, env: EnvLayer, model: Option<
    Seq<char>,
>)
    ensures
        ({
            let file = config_of_file(read, key);
            let set = with_env(file, env);
            let all = with_flags(set, model, None, None);
            &&& non_blank(model) is Some ==> all.model_name == non_blank(model)->0
            &&& non_blank(model) is None && non_blank(opt_view(env.model)) is Some
                ==> all.model_name == non_blank(opt_view(env.model))->0
            &&& non_blank(model) is None && non_blank(opt_view(env.model)) is None
                ==> all.model_name == file.model_name
            &&& !(read is Parsed) ==> file == default_config()
        }),
{
}

// ---------------------------------------------------------------------------
// The agent
// ---------------------------------------------------------------------------

/// The settings of an agent.
pub open spec fn config_of(a: Agent) -> ConfigView {
    match a {
        Agent::Cli(_, config) => config@,
        Agent::BuiltIn(config) => config@,
    }
}

/// The name of the CLI to drive: the flag's, or else the environment's, or else
/// the default one.
pub open spec fn cli_name(flag: Option<Seq<char>>, env: Option<Seq<char>>) -> Seq<char> {
    match non_blank(flag) {
        Some(name) => trim_of(name),
        None => text_or(non_blank(env), DEFAULT_CLI@),
    }
}

/// One line that describes an agent. An empty model is reported as the CLI's own
/// default rather than as a blank, since "which model ran" is the first thing to
/// check when output looks wrong.
pub open spec fn agent_label(a: Agent) -> Seq<char> {
    match a {
        Agent::Cli(_, config) => if is_blank(config.model_name@) {
            "cli:codex (its own model)"@
        } else {
            "cli:codex:"@ + config.model_name@
        },
        Agent::BuiltIn(config) => if is_blank(config.model_name@) {
            "builtin (default model)"@
        } else {
            "builtin:"@ + config.model_name@
        },
    }
}

impl Agent {
    /// The agent named on the command line, with the settings that were loaded
    /// and the flags on top.
    pub fn from_args(
        cli: Option<&str>,
        env_cli: &Option<String>,
        loaded: ModelConfig,
        model: Option<&str>,
        base_url: Option<&str>,
        api_key: Option<&str>,
    ) -> (r: Result<Agent, String>)
        ensures
            ({
                let name = lowered(trim_of(cli_name(opt_str_view(cli), opt_view(*env_cli))));
                match r {
                    Ok(agent) => name == "codex"@ && agent is Cli && config_of(agent) == with_flags(
                        loaded@,
                        opt_str_view(model),
                        opt_str_view(base_url),
                        opt_str_view(api_key),
                    ),
                    Err(m) => name != "codex"@ && m@ == "unknown cli `"@ + name
                        + "`; known: codex"@,
                }
            }),
    {
        let mut config = loaded;
        config.apply_overrides(model, base_url, api_key);
        let mut chosen: Option<String> = None;
        if let Some(name) = cli {
            if !blank(name) {
                chosen = Some(trim(name));
            }
        }
        let name = match chosen {
            Some(n) => n,
            None => match env_non_empty(env_cli) {
                Some(n) => n,
                None => owned(DEFAULT_CLI),
            },
        };
        match Cli::from_name(name.as_str()) {
            Ok(cli) => Ok(Agent::Cli(cli, config)),
            Err(m) => Err(m),
        }
    }

    /// The named CLI with its settings as loaded.
    pub fn cli(cli: &str, env_cli: &Option<String>, loaded: ModelConfig) -> (r: Result<
        Agent,
        String,
    >)
        ensures
            ({
                let name = lowered(trim_of(cli_name(Some(cli@), opt_view(*env_cli))));
                match r {
                    Ok(agent) => name == "codex"@ && agent is Cli && config_of(agent) == loaded@,
                    Err(m) => name != "codex"@ && m@ == "unknown cli `"@ + name
                        + "`; known: codex"@,
                }
            }),
    {
        Agent::from_args(Some(cli), env_cli, loaded, None, None, None)
    }

    /// The agent to reach for when none is configured: the built-in one.
    pub fn built_in(env: &EnvLayer) -> (r: (Agent, Vec<String>))
        ensures
            r.0 is BuiltIn,
            config_of(r.0) == with_env(default_config(), *env),
            views(r.1@) == env_warnings(*env),
    {
        let (config, warnings) = ModelConfig::from_env(env);
        (Agent::BuiltIn(config), warnings)
    }

    /// A one-line description, for the `filling N hole(s) ... using ...` header.
    pub fn label(&self) -> (r: String)
        ensures
            r@ == agent_label(*self),
    {
        match self {
            Agent::Cli(_, config) => if blank(config.model_name.as_str()) {
                owned("cli:codex (its own model)")
            } else {
                let mut m = owned("cli:codex:");
                m.push_str(config.model_name.as_str());
                m
            },
            Agent::BuiltIn(config) => if blank(config.model_name.as_str()) {
                owned("builtin (default model)")
            } else {
                let mut m = owned("builtin:");
                m.push_str(config.model_name.as_str());
                m
            },
        }
    }

    /// Override the model name, leaving everything else alone.
    ///
    /// An empty name is ignored so that `--model ""` (or no flag at all) keeps
    /// deferring to the CLI's own configuration.
    pub fn with_model(self, model_name: &str) -> (r: Agent)
        ensures
            (r is Cli) == (self is Cli),
            config_of(r) == with_flags(config_of(self), Some(model_name@), None, None),
    {
        match self {
            Agent::Cli(cli, config) => {
                let mut config = config;
                config.apply_overrides(Some(model_name), None, None);
                Agent::Cli(cli, config)
            },
            Agent::BuiltIn(config) => {
                let mut config = config;
                config.apply_overrides(Some(model_name), None, None);
                Agent::BuiltIn(config)
            },
        }
    }

    /// The arguments to run the agent's CLI with; the built-in agent has none to
    /// run.
    pub fn handle(&self) -> (r: Result<Vec<String>, String>)
        ensures
            match r {
                Ok(args) => *self is Cli && views(args@) == codex::arguments(
                    config_of(*self).model_name,
                ),
                Err(m) => *self is BuiltIn && m@
                    == "the built-in model agent is not implemented; use `--agent cli --cli codex` or configure an external agent"@,
            },
    {
        match self {
            Agent::Cli(cli, config) => Ok(cli.handle(config)),
            // An error rather than a panic: this path is reachable from the CLI.
            Agent::BuiltIn(_) => Err(
                owned(
                    "the built-in model agent is not implemented; use `--agent cli --cli codex` or configure an external agent",
                ),
            ),
        }
    }

    /// Attempts per hole, as resolved from the config, the environment and the
    /// flags. The filler owns the retry loop, so it asks rather than assumes.
    pub fn max_attempts(&self) -> (r: u32)
        ensures
            r == config_of(*self).max_attempts,
    {
        match self {
            Agent::Cli(_, config) => config.max_attempts,
            Agent::BuiltIn(config) => config.max_attempts,
        }
    }
}

impl Cli {
    /// The arguments to run the CLI with.
    pub fn handle(&self, model: &ModelConfig) -> (r: Vec<String>)
        ensures
            views(r@) == codex::arguments(model.model_name@),
    {
        match self {
            Cli::Codex => codex::command_arguments(model),
        }
    }
}

} // verus!
