//! The dispatch engine: which mode an invocation runs in, raw-flag
//! stripping, shadow-mode planning, and the mapping from child-process
//! outcomes to exit codes.

use vstd::prelude::*;
use vstd::string::*;

use crate::aliases::{spec_contains, spec_find, Invocation};
use crate::commands::{Add, List, Remove};
use crate::config::Config;
use crate::error::{ExitCode, ShadowError};
use crate::text::{all_space, lemma_filter_push, spec_split_ws, str_eq, views_of};

verus! {

/// The canonical program name. Invoked under this name the tool is the
/// administrative interface; under any other name it acts as a shadow of
/// that command.
pub open spec fn spec_canonical_name() -> Seq<char> {
    "shdw"@
}

/// The canonical program name as a string slice.
pub fn canonical_name() -> (r: &'static str)
    ensures
        r@ == spec_canonical_name(),
{
    "shdw"
}

/// A parsed administrative command line.
#[derive(Debug)]
pub struct Cli {
    pub command: Commands,
}

/// The administrative subcommands.
#[derive(Debug)]
pub enum Commands {
    /// Register a new alias.
    Add(Add),
    /// Unregister an alias.
    Remove(Remove),
    /// List all aliases.
    List(List),
}

/// The two invocation modes, decided once at process start from the program
/// name and never re-checked downstream.
#[derive(Debug)]
pub enum InvocationMode {
    /// Invoked under the canonical name: run the administrative interface.
    Admin,
    /// Invoked under any other name: treat it as the alias key to shadow.
    Shadowed(String),
}

/// The trailing path component of a program path: everything after the last
/// slash (empty when the path ends with one).
pub open spec fn spec_basename(s: Seq<char>) -> Seq<char>
    decreases s.len(),
{
    if s.len() == 0 {
        Seq::<char>::empty()
    } else if s.last() == '/' {
        Seq::<char>::empty()
    } else {
        spec_basename(s.drop_last()).push(s.last())
    }
}

/// If no slash stands at or after `cut` and `cut` is 0 or preceded by one,
/// the basename is the suffix from `cut` on.
proof fn lemma_basename_suffix(s: Seq<char>, cut: int)
    requires
        0 <= cut <= s.len(),
        forall|k: int| cut <= k < s.len() ==> s[k] != '/',
        cut == 0 || s[cut - 1] == '/',
    ensures
        spec_basename(s) == s.skip(cut),
    decreases s.len(),
{
    if cut == s.len() {
        if cut > 0 {
            assert(s.last() == '/');
        }
        assert(s.skip(cut) =~= Seq::<char>::empty());
    } else {
        assert(s.last() != '/');
        assert forall|k: int| cut <= k < s.drop_last().len() implies s.drop_last()[k] != '/' by {
            assert(s.drop_last()[k] == s[k]);
        }
        lemma_basename_suffix(s.drop_last(), cut);
        assert(spec_basename(s) == s.drop_last().skip(cut).push(s.last()));
        assert(s.drop_last().skip(cut).push(s.last()) =~= s.skip(cut));
    }
}

/// Extracts the program name from the first command-line argument: the part
/// after the last slash.
pub fn program_name(argv0: &str) -> (r: String)
    ensures
        r@ == spec_basename(argv0@),
{
    let n: usize = argv0.unicode_len();
    let mut cut: usize = n;
    loop
        invariant_except_break
            0 <= cut <= n,
            n == argv0@.len(),
            forall|k: int| cut <= k < n ==> argv0@[k] != '/',
        ensures
            0 <= cut <= n,
            n == argv0@.len(),
            forall|k: int| cut <= k < n ==> argv0@[k] != '/',
            cut == 0 || argv0@[cut - 1] == '/',
        decreases cut,
    {
        if cut == 0 {
            break;
        }
        if argv0.get_char(cut - 1) == '/' {
            break;
        }
        cut = cut - 1;
    }
    proof {
        lemma_basename_suffix(argv0@, cut as int);
    }
    argv0.substring_char(cut, n).to_owned()
}

/// Decides the invocation mode from the program name: the administrative
/// interface under the canonical name, shadow mode under any other.
pub fn invocation_mode(program: &str) -> (r: InvocationMode)
    ensures
        program@ == spec_canonical_name() ==> r is Admin,
        program@ != spec_canonical_name() ==> (r matches InvocationMode::Shadowed(n) && n@
            == program@),
{
    if str_eq(program, canonical_name()) {
        InvocationMode::Admin
    } else {
        InvocationMode::Shadowed(program.to_owned())
    }
}

/// Whether an argument is one of the raw-mode flags.
pub open spec fn is_raw_flag(t: Seq<char>) -> bool {
    t == "--raw"@ || t == "-R"@
}

/// Mathematical model of the raw-stripped shadow-mode arguments.
pub ghost struct ShadowedArgsView {
    pub args: Seq<Seq<char>>,
    pub is_raw: bool,
}

/// The arguments of a shadow-mode invocation with the raw-mode flags
/// (`--raw` / `-R`) stripped out, and whether one was present.
#[derive(Debug)]
pub struct ShadowedArgs {
    args: Vec<String>,
    is_raw: bool,
}

impl View for ShadowedArgs {
    type V = ShadowedArgsView;

    closed spec fn view(&self) -> ShadowedArgsView {
        ShadowedArgsView { args: views_of(self.args@), is_raw: self.is_raw }
    }
}

impl ShadowedArgs {
    /// Strips the raw-mode flags out of an argument list, wherever they
    /// stand, keeping the order of everything else, and records whether one
    /// was present.
    pub fn new(args: Vec<String>) -> (r: ShadowedArgs)
        ensures
            r@.args == views_of(args@).filter(|t: Seq<char>| !is_raw_flag(t)),
            r@.is_raw == exists|i: int| 0 <= i < args@.len() && is_raw_flag(args@[i]@),
    {
        let n: usize = args.len();
        let mut out: Vec<String> = Vec::new();
        let mut raw: bool = false;
        let mut i: usize = 0;
        proof {
            assert(views_of(args@.take(0)) =~= Seq::<Seq<char>>::empty());
            assert(views_of(out@) =~= Seq::<Seq<char>>::empty().filter(
                |t: Seq<char>| !is_raw_flag(t),
            ));
        }
        while i < n
            invariant
                0 <= i <= n,
                n == args@.len(),
                views_of(out@) == views_of(args@.take(i as int)).filter(
                    |t: Seq<char>| !is_raw_flag(t),
                ),
                raw == exists|k: int| 0 <= k < i && is_raw_flag(args@[k]@),
            decreases n - i,
        {
            let ghost prefix = views_of(args@.take(i as int));
            proof {
                assert(views_of(args@.take(i as int + 1)) =~= prefix.push(args@[i as int]@));
                lemma_filter_push(prefix, |t: Seq<char>| !is_raw_flag(t), args@[i as int]@);
            }
            if str_eq(args[i].as_str(), "--raw") || str_eq(args[i].as_str(), "-R") {
                raw = true;
            } else {
                let ghost before = views_of(out@);
                out.push(args[i].clone());
                proof {
                    assert(views_of(out@) =~= before.push(args@[i as int]@));
                }
            }
            i = i + 1;
        }
        proof {
            assert(args@.take(n as int) =~= args@);
        }
        ShadowedArgs { args: out, is_raw: raw }
    }

    /// The stripped arguments, in their original order.
    pub fn args(&self) -> (r: &Vec<String>)
        ensures
            views_of(r@) == self@.args,
    {
        &self.args
    }

    /// Whether a raw-mode flag was present.
    pub fn is_raw(&self) -> (r: bool)
        ensures
            r == self@.is_raw,
    {
        self.is_raw
    }
}

/// What became of a spawned child process. The exit-code mapping over this
/// type is a pure function, testable without spawning anything.
#[derive(Debug)]
pub enum ProcessOutcome {
    /// The child exited with a numeric status.
    Exited(i32),
    /// The child was terminated by a signal and has no numeric status.
    Terminated,
    /// The child could not be spawned; the reason is carried along.
    SpawnFailed(String),
}

/// The exit code a child-process outcome maps to: success propagates, every
/// other outcome is reported as a failed command.
pub open spec fn spec_outcome_exit_code(o: ProcessOutcome) -> ExitCode {
    match o {
        ProcessOutcome::Exited(code) => if code == 0 {
            ExitCode::Success
        } else {
            ExitCode::CommandFailed
        },
        ProcessOutcome::Terminated => ExitCode::CommandFailed,
        ProcessOutcome::SpawnFailed(_) => ExitCode::CommandFailed,
    }
}

/// Maps a child-process outcome to the tool's exit code.
pub fn exit_code_for(outcome: &ProcessOutcome) -> (r: ExitCode)
    ensures
        r == spec_outcome_exit_code(*outcome),
{
    match outcome {
        ProcessOutcome::Exited(code) => {
            if *code == 0 {
                ExitCode::Success
            } else {
                ExitCode::CommandFailed
            }
        },
        ProcessOutcome::Terminated => ExitCode::CommandFailed,
        ProcessOutcome::SpawnFailed(_) => ExitCode::CommandFailed,
    }
}

/// Plans a shadow-mode invocation: looks the program name up in the registry
/// and composes what to execute.
///
/// An unknown name is a terminal `AliasNotFound` error, never a fallback to
/// running the unknown command. In raw mode the original name itself is
/// executed with the stripped arguments; otherwise the replacement command
/// line, split on whitespace, runs with its leading arguments ahead of the
/// stripped ones.
pub fn plan_shadowed(config: &Config, command: &str, args: &ShadowedArgs) -> (r: Result<
    Invocation,
    ShadowError,
>)
    ensures
        !spec_contains(config@.aliases, command@) ==> (r matches Err(e) && e matches
            ShadowError::AliasNotFound(n) && n@ == command@),
        spec_contains(config@.aliases, command@) && args@.is_raw ==> (r matches Ok(inv)
            && inv@.program == spec_find(config@.aliases, command@).unwrap().name && inv@.args
            == args@.args),
        spec_contains(config@.aliases, command@) && !args@.is_raw && all_space(
            spec_find(config@.aliases, command@).unwrap().command,
        ) ==> (r matches Err(e) && e matches ShadowError::InvalidReplacement(c) && c@
            == spec_find(config@.aliases, command@).unwrap().command),
        spec_contains(config@.aliases, command@) && !args@.is_raw && !all_space(
            spec_find(config@.aliases, command@).unwrap().command,
        ) ==> (r matches Ok(inv) && inv@.program == spec_split_ws(
            spec_find(config@.aliases, command@).unwrap().command,
        )[0] && inv@.args == spec_split_ws(
            spec_find(config@.aliases, command@).unwrap().command,
        ).skip(1) + args@.args),
{
    let alias = match config.aliases().find(command) {
        Ok(a) => a,
        Err(e) => {
            return Err(e);
        },
    };
    alias.invocation(args.args(), args.is_raw())
}

} // verus!
