//! Running `cargo check`: how it is invoked, how long it may take, and what its
//! output comes to.
use vstd::prelude::*;

use crate::diagnostics::{
    diagnostic_views, diagnostics_of, from_utf8_lossy, lossy_text, parse_diagnostics,
};
use crate::hole::clone_opt;
use crate::prober::{CheckRun, DEFAULT_LOCK_WAIT, DEFAULT_TIMEOUT};
use crate::text::{decimal, decimal_of, lines_of, opt_view, owned, trim, trim_of, views};
use crate::util::{truncate, truncated};

verus! {

/// How to invoke cargo, and how long to allow.
#[derive(Debug)]
pub struct ProberOptions {
    /// Cargo executable.
    pub cargo: String,
    /// Deadline for one `cargo check`, in seconds.
    pub timeout: u64,
    /// Pass `--offline`.
    pub offline: bool,
    /// Reuse this target directory, keeping the incremental cache warm.
    pub target_dir: Option<String>,
    /// Set `CARGO_HOME` for the child.
    pub cargo_home: Option<String>,
    /// How long to wait for another process's probe, in seconds.
    pub lock_wait: u64,
}

impl Clone for ProberOptions {
    fn clone(&self) -> (r: Self)
        ensures
            r == *self,
    {
        ProberOptions {
            cargo: self.cargo.clone(),
            timeout: self.timeout,
            offline: self.offline,
            target_dir: clone_opt(&self.target_dir),
            cargo_home: clone_opt(&self.cargo_home),
            lock_wait: self.lock_wait,
        }
    }
}

/// The variables that decide how cargo is invoked, as far as they are set.
#[derive(Debug)]
pub struct CargoEnv {
    /// `CARGO`.
    pub cargo: Option<String>,
    /// Whether `CARGO_HOLE_OFFLINE` is set, to anything.
    pub offline: bool,
    /// `CARGO_HOLE_TARGET_DIR`.
    pub target_dir: Option<String>,
    /// `CARGO_HOME`.
    pub cargo_home: Option<String>,
}

/// The cargo executable to invoke.
pub open spec fn cargo_of(set: Option<Seq<char>>) -> Seq<char> {
    match set {
        Some(c) => c,
        None => "cargo"@,
    }
}

/// The cargo executable to invoke, honouring `CARGO` when set by a parent cargo.
pub fn cargo_binary(set: &Option<String>) -> (r: String)
    ensures
        r@ == cargo_of(opt_view(*set)),
{
    match set {
        Some(c) => c.clone(),
        None => owned("cargo"),
    }
}

/// The arguments of a check.
pub open spec fn check_arguments_of(target_dir: Option<Seq<char>>, offline: bool) -> Seq<
    Seq<char>,
> {
    let fixed = seq!["check"@, "--message-format=json"@, "--quiet"@];
    let dir = match target_dir {
        Some(d) => seq!["--target-dir"@, d],
        None => seq![],
    };
    let net = if offline {
        seq!["--offline"@]
    } else {
        seq![]
    };
    fixed + dir + net
}

impl ProberOptions {
    /// The options without any knob turned.
    pub fn defaults(env: &CargoEnv) -> (r: ProberOptions)
        ensures
            r.cargo@ == cargo_of(opt_view(env.cargo)),
            r.timeout == DEFAULT_TIMEOUT,
            !r.offline,
            r.target_dir is None,
            r.cargo_home is None,
            r.lock_wait == DEFAULT_LOCK_WAIT,
    {
        ProberOptions {
            cargo: cargo_binary(&env.cargo),
            timeout: DEFAULT_TIMEOUT,
            offline: false,
            target_dir: None,
            cargo_home: None,
            lock_wait: DEFAULT_LOCK_WAIT,
        }
    }

    /// The options the environment knobs ask for.
    pub fn from_env(env: &CargoEnv) -> (r: ProberOptions)
        ensures
            r.cargo@ == cargo_of(opt_view(env.cargo)),
            r.timeout == DEFAULT_TIMEOUT,
            r.offline == env.offline,
            r.target_dir == env.target_dir,
            r.cargo_home == env.cargo_home,
            r.lock_wait == DEFAULT_LOCK_WAIT,
    {
        ProberOptions {
            cargo: cargo_binary(&env.cargo),
            timeout: DEFAULT_TIMEOUT,
            offline: env.offline,
            target_dir: clone_opt(&env.target_dir),
            cargo_home: clone_opt(&env.cargo_home),
            lock_wait: DEFAULT_LOCK_WAIT,
        }
    }

    /// Options for tests: offline, with a caller-supplied target directory and
    /// Cargo home so no global state has to be mutated.
    pub fn for_tests(env: &CargoEnv, target_dir: String, cargo_home: String) -> (r: ProberOptions)
        ensures
            r.cargo@ == cargo_of(opt_view(env.cargo)),
            r.timeout == 600,
            r.offline,
            r.target_dir == Some(target_dir),
            r.cargo_home == Some(cargo_home),
            r.lock_wait == DEFAULT_LOCK_WAIT,
    {
        ProberOptions {
            cargo: cargo_binary(&env.cargo),
            timeout: 600,
            offline: true,
            target_dir: Some(target_dir),
            cargo_home: Some(cargo_home),
            lock_wait: DEFAULT_LOCK_WAIT,
        }
    }

    /// The arguments of the `cargo check` invocation.
    pub fn check_arguments(&self) -> (r: Vec<String>)
        ensures
            views(r@) == check_arguments_of(opt_view(self.target_dir), self.offline),
    {
        let mut args: Vec<String> = Vec::new();
        args.push(owned("check"));
        args.push(owned("--message-format=json"));
        args.push(owned("--quiet"));
        if let Some(dir) = &self.target_dir {
            args.push(owned("--target-dir"));
            args.push(dir.clone());
        }
        if self.offline {
            args.push(owned("--offline"));
        }
        proof {
            assert(views(args@) =~= check_arguments_of(opt_view(self.target_dir), self.offline));
        }
        args
    }
}

// ---------------------------------------------------------------------------
// Waiting for the child
// ---------------------------------------------------------------------------

/// What was seen of a running child.
#[derive(Debug)]
pub enum ChildState {
    /// It is over, with this exit code if it has one.
    Exited(Option<i32>),
    Running,
    /// It could not be waited for.
    WaitFailed(String),
}

/// What to do about a running child.
#[derive(Debug)]
pub enum WaitStep {
    /// Look again in a moment.
    Sleep,
    /// Collect its output.
    Collect { code: Option<i32> },
    /// Kill it with everything it started, then collect its output.
    KillAndCollect,
    /// Kill it with everything it started, and report.
    KillAndFail { message: String },
}

/// What to do about a running child, once it was looked at.
///
/// On a timeout the whole process group has to go: cargo spawns rustc, and an
/// orphaned rustc holds the stdout pipe open, so the call would hang well past
/// its deadline.
pub fn wait_step(program: &str, state: ChildState, past_deadline: bool) -> (r: WaitStep)
    ensures
        match state {
            ChildState::Exited(code) => r == (WaitStep::Collect { code }),
            ChildState::Running => r == if past_deadline {
                WaitStep::KillAndCollect
            } else {
                WaitStep::Sleep
            },
            ChildState::WaitFailed(e) => r is KillAndFail && r->message@
                == "failed while waiting for `"@ + program@ + "`: "@ + e@,
        },
{
    match state {
        ChildState::Exited(code) => WaitStep::Collect { code },
        ChildState::Running => if past_deadline {
            WaitStep::KillAndCollect
        } else {
            WaitStep::Sleep
        },
        ChildState::WaitFailed(e) => {
            let mut m = owned("failed while waiting for `");
            m.push_str(program);
            m.push_str("`: ");
            m.push_str(e.as_str());
            WaitStep::KillAndFail { message: m }
        },
    }
}

/// The message about a program that cannot be started.
pub fn cannot_run(program: &str, why: &str) -> (r: String)
    ensures
        r@ == "cannot run `"@ + program@ + "` -- is it installed and on PATH?: "@ + why@,
{
    let mut m = owned("cannot run `");
    m.push_str(program);
    m.push_str("` -- is it installed and on PATH?: ");
    m.push_str(why);
    m
}

// ---------------------------------------------------------------------------
// The output
// ---------------------------------------------------------------------------

/// A finished subprocess.
#[derive(Debug)]
pub struct Output {
    pub stdout: Vec<u8>,
    pub stderr: Vec<u8>,
    pub code: Option<i32>,
    pub timed_out: bool,
}

/// A number written in decimal, with a sign where it is negative.
pub open spec fn signed_decimal(n: int) -> Seq<char> {
    if n < 0 {
        "-"@ + decimal_of((-n) as nat)
    } else {
        decimal_of(n as nat)
    }
}

/// Why the output of a check cannot be interpreted, if it cannot: the check did
/// not finish, or cargo itself refused (bad manifest, unknown flag, no such
/// package) and said nothing.
pub open spec fn check_error(options: ProberOptions, root: Seq<char>, out: Output) -> Option<
    Seq<char>,
> {
    if out.timed_out {
        Some(
            "`"@ + options.cargo@ + " check` did not finish within "@ + decimal_of(
                options.timeout as nat,
            ) + "s in "@ + root + "; raise the timeout or check for a build that is stuck"@,
        )
    } else {
        match out.code {
            Some(code) => if code != 0 && out.stdout@.len() == 0 {
                Some(
                    "`"@ + options.cargo@ + " check` exited with status "@ + signed_decimal(
                        code as int,
                    ) + " and produced no diagnostics: "@ + truncated(
                        trim_of(lossy_text(out.stderr@)),
                        400,
                    ),
                )
            } else {
                None
            },
            None => None,
        }
    }
}

fn decimal_i32(n: i32) -> (r: String)
    ensures
        r@ == signed_decimal(n as int),
{
    if n < 0 {
        let mut m = owned("-");
        m.push_str(decimal((-(n as i64)) as u64).as_str());
        m
    } else {
        decimal(n as u64)
    }
}

/// What the output of a check comes to: its diagnostics, or why there is nothing
/// to interpret.
pub fn read_check(options: &ProberOptions, root: &str, out: &Output) -> (r: Result<CheckRun, String>)
    ensures
        match r {
            Ok(run) => check_error(*options, root@, *out) is None && diagnostic_views(
                run.diagnostics@,
            ) == diagnostics_of(lines_of(lossy_text(out.stdout@))) && run.stderr@ == lossy_text(
                out.stderr@,
            ),
            Err(m) => check_error(*options, root@, *out) == Some(m@),
        },
{
    if out.timed_out {
        let mut m = owned("`");
        m.push_str(options.cargo.as_str());
        m.push_str(" check` did not finish within ");
        m.push_str(decimal(options.timeout).as_str());
        m.push_str("s in ");
        m.push_str(root);
        m.push_str("; raise the timeout or check for a build that is stuck");
        return Err(m);
    }
    let stderr = from_utf8_lossy(out.stderr.as_slice());
    if let Some(code) = out.code {
        if code != 0 && out.stdout.len() == 0 {
            let mut m = owned("`");
            m.push_str(options.cargo.as_str());
            m.push_str(" check` exited with status ");
            m.push_str(decimal_i32(code).as_str());
            m.push_str(" and produced no diagnostics: ");
            let said = trim(stderr.as_str());
            m.push_str(truncate(said.as_str(), 400).as_str());
            return Err(m);
        }
    }
    Ok(CheckRun { diagnostics: parse_diagnostics(out.stdout.as_slice()), stderr })
}

} // verus!
