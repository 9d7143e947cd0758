//! Checks that a project has to pass before a push.

use crate::config::ProjectConfig;
use crate::config::Target;
use crate::config;
use crate::text;
use crate::utils;
use vstd::prelude::*;

verus! {

/// How long a check may run, in seconds.
pub const CHECK_TIMEOUT_SECS: u64 = 120;

/// How much output of a check is kept, in bytes.
pub const OUTPUT_CAP_BYTES: usize = 524_288;

/// How much is read of each of the two output streams, in bytes.
pub const STREAM_CAP_BYTES: u64 = 262_144;

/// The outcome of one check.
pub struct CheckResult {
    pub command: String,
    pub passed: bool,
    pub exit_code: Option<i32>,
    pub output: String,
}

/// The outcome of all checks of a target.
pub struct GatekeeperResult {
    pub passed: bool,
    pub target: String,
    pub checks: Vec<CheckResult>,
}

// ---------------------------------------------------------------------------
// The order of checks
// ---------------------------------------------------------------------------

/// The checks of a target, with that of the branch tool where it is installed.
pub open spec fn checks_of(target: Target, gitbutler: bool) -> Seq<Seq<char>> {
    if gitbutler {
        text::views(target.pre_push_checks@).push("but validate"@)
    } else {
        text::views(target.pre_push_checks@)
    }
}

/// A run of checks, one after the other, up to the first that fails.
pub struct CheckRun {
    pub target: String,
    pub commands: Vec<String>,
    pub results: Vec<CheckResult>,
}

/// Whether all results passed.
pub open spec fn all_passed(results: Seq<CheckResult>) -> bool {
    forall|i: int| 0 <= i < results.len() ==> (#[trigger] results[i]).passed
}

impl CheckRun {
    /// The results are those of the first checks, in order, and only the last may have failed.
    pub open spec fn wf(self) -> bool {
        &&& self.results@.len() <= self.commands@.len()
        &&& forall|i: int|
            0 <= i < self.results@.len() ==> (#[trigger] self.results@[i]).command@
                == self.commands@[i]@
        &&& forall|i: int|
            0 <= i < self.results@.len() - 1 ==> (#[trigger] self.results@[i]).passed
    }

    /// Whether there is nothing left to run: a check failed, or all are done.
    pub open spec fn is_done(self) -> bool {
        !all_passed(self.results@) || self.results@.len() == self.commands@.len()
    }

    /// Starts the checks of a target.
    pub fn start(project: &ProjectConfig, target: &str, gitbutler: bool) -> (r: Result<
        CheckRun,
        String,
    >)
        ensures
            match config::first_target(project.targets@, target@, 0) {
                Some(i) => r matches Ok(run) && run.wf() && run.target@ == target@ && text::views(
                    run.commands@,
                ) == checks_of(project.targets@[i], gitbutler) && run.results@.len() == 0,
                None => r matches Err(e) && e@ == "Target '"@ + target@
                    + "' not found in .klaar/targets.toml"@,
            },
    {
        match project.find_target(target) {
            Some(t) => {
                let mut commands = text::copy_all(&t.pre_push_checks);
                let ghost before = commands@;
                if gitbutler {
                    commands.push(text::copy("but validate"));
                    proof {
                        text::lemma_views_push(before, commands@.last());
                    }
                }
                Ok(CheckRun { target: text::copy(target), commands, results: Vec::new() })
            },
            None => {
                let mut e = text::copy("Target '");
                e.append(target);
                e.append("' not found in .klaar/targets.toml");
                Err(e)
            },
        }
    }

    /// The check to run next, until one fails or all are done.
    pub fn next(&self) -> (r: Option<&String>)
        requires
            self.wf(),
        ensures
            r is None <==> self.is_done(),
            r matches Some(c) ==> c@ == self.commands@[self.results@.len() as int]@,
    {
        let n: usize = self.results.len();
        if n > 0 && !self.results[n - 1].passed {
            assert(!all_passed(self.results@));
            return None;
        }
        proof {
            assert forall|i: int| 0 <= i < self.results@.len() implies (
            #[trigger] self.results@[i]).passed by {
                if i < n - 1 {
                    assert(self.results@[i].passed);
                }
            }
        }
        if n < self.commands.len() {
            Some(&self.commands[n])
        } else {
            None
        }
    }

    /// Takes the outcome of the check that was run.
    pub fn record(&mut self, result: CheckResult)
        requires
            old(self).wf(),
            !old(self).is_done(),
            result.command@ == old(self).commands@[old(self).results@.len() as int]@,
        ensures
            final(self).wf(),
            final(self).results@ == old(self).results@.push(result),
            final(self).commands == old(self).commands,
            final(self).target == old(self).target,
    {
        self.results.push(result);
    }

    /// The outcome of the run.
    pub fn finish(self) -> (r: GatekeeperResult)
        requires
            self.wf(),
        ensures
            r.passed == all_passed(self.results@),
            r.target == self.target,
            r.checks == self.results,
            forall|i: int|
                0 <= i < r.checks@.len() ==> (#[trigger] r.checks@[i]).command@
                    == self.commands@[i]@,
    {
        let n: usize = self.results.len();
        let passed = n == 0 || self.results[n - 1].passed;
        proof {
            if passed {
                assert forall|i: int| 0 <= i < self.results@.len() implies (
                #[trigger] self.results@[i]).passed by {
                    if i < n - 1 {
                        assert(self.results@[i].passed);
                    }
                }
            }
        }
        GatekeeperResult { passed, target: self.target, checks: self.results }
    }
}

/// After a failed check no other check is run.
pub proof fn law_a_failed_check_ends_the_run(run: CheckRun, i: int)
    requires
        run.wf(),
        0 <= i < run.results@.len(),
        !run.results@[i].passed,
    ensures
        run.is_done(),
        i == run.results@.len() - 1,
{
}

/// A run that is done and passed has run every check.
pub proof fn law_a_passed_run_ran_every_check(run: CheckRun)
    requires
        run.wf(),
        run.is_done(),
        all_passed(run.results@),
    ensures
        run.results@.len() == run.commands@.len(),
        forall|i: int|
            0 <= i < run.commands@.len() ==> (#[trigger] run.results@[i]).command@
                == run.commands@[i]@ && run.results@[i].passed,
{
}

// ---------------------------------------------------------------------------
// One check
// ---------------------------------------------------------------------------

/// How a command is run: a program with arguments, or not at all.
pub enum CheckPlan {
    Empty,
    Run { program: String, args: Vec<String> },
}

/// Splits a command at white space. No shell is involved.
pub fn plan_check(command: &str) -> (r: CheckPlan)
    ensures
        match r {
            CheckPlan::Empty => text::words_of(command@).len() == 0,
            CheckPlan::Run { program, args } => text::words_of(command@) == seq![program@]
                + text::views(args@),
        },
{
    let mut words = text::split_whitespace(command);
    let ghost all = text::views(words@);
    assert(all.len() == words@.len());
    if words.len() == 0 {
        return CheckPlan::Empty;
    }
    let program = words.remove(0);
    proof {
        assert(all[0] == program@);
        assert(all =~= seq![program@] + text::views(words@));
    }
    CheckPlan::Run { program, args: words }
}

/// What came of running a command.
pub enum CheckOutcome {
    /// There was nothing to run.
    EmptyCommand,
    /// The process did not start.
    SpawnFailed { cause: String },
    /// The standard output could not be read.
    NoStdout,
    /// The standard error could not be read.
    NoStderr,
    /// The time was over.
    TimedOut,
    /// The process ended.
    Finished { success: bool, exit_code: Option<i32>, stdout: Vec<u8>, stderr: Vec<u8> },
}

/// The text that `String::from_utf8_lossy` makes of bytes.
pub uninterp spec fn lossy_text(bytes: Seq<u8>) -> Seq<char>;

/// Calls `String::from_utf8_lossy`. Valid UTF-8 is decoded; other bytes give a text with
/// replacement characters, which is not described further.
#[verifier::external_body]
fn decode_lossy(bytes: &Vec<u8>) -> (r: String)
    ensures
        r@ == lossy_text(bytes@),
        vstd::utf8::valid_utf8(bytes@) ==> r@ == vstd::utf8::decode_utf8(bytes@),
{
    String::from_utf8_lossy(bytes).to_string()
}

/// The output of a check: that of both streams, with a line in between where both have some, cut
/// at the limit.
pub open spec fn combined_output(stdout: Seq<char>, stderr: Seq<char>) -> Seq<char> {
    utils::truncated(
        if stderr.len() == 0 {
            stdout
        } else if stdout.len() == 0 {
            stderr
        } else {
            stdout + "\n---stderr---\n"@ + stderr
        },
        OUTPUT_CAP_BYTES as nat,
    )
}

/// Puts the output of both streams together.
pub fn combine_output(stdout: String, stderr: String) -> (r: String)
    ensures
        r@ == combined_output(stdout@, stderr@),
{
    let mut combined = stdout;
    let ghost out = combined@;
    proof {
        text::lemma_byte_len_zero(stderr@);
        text::lemma_byte_len_zero(out);
    }
    if text::byte_count(stderr.as_str()) > 0 {
        if text::byte_count(combined.as_str()) > 0 {
            combined.append("\n---stderr---\n");
            combined.append(stderr.as_str());
        } else {
            combined = stderr;
        }
    }
    utils::safe_truncate(&mut combined, OUTPUT_CAP_BYTES);
    combined
}

/// The output that is reported for an outcome.
pub open spec fn outcome_output(o: CheckOutcome) -> Seq<char> {
    match o {
        CheckOutcome::EmptyCommand => "Empty command"@,
        CheckOutcome::SpawnFailed { cause } => "Failed to spawn process: "@ + cause@,
        CheckOutcome::NoStdout => "Failed to pipe process stdout"@,
        CheckOutcome::NoStderr => "Failed to pipe process stderr"@,
        CheckOutcome::TimedOut => "Timed out after 120s"@,
        CheckOutcome::Finished { success, exit_code, stdout, stderr } => combined_output(
            lossy_text(stdout@),
            lossy_text(stderr@),
        ),
    }
}

/// The result of a check. It passed only if its process ended well.
pub fn check_result(command: &str, outcome: CheckOutcome) -> (r: CheckResult)
    ensures
        r.command@ == command@,
        r.passed == (outcome matches CheckOutcome::Finished { success, .. } && success),
        r.exit_code == (match outcome {
            CheckOutcome::Finished { exit_code, .. } => exit_code,
            _ => None,
        }),
        r.output@ == outcome_output(outcome),
{
    let mut passed = false;
    let mut code: Option<i32> = None;
    let output = match outcome {
        CheckOutcome::EmptyCommand => text::copy("Empty command"),
        CheckOutcome::SpawnFailed { cause } => {
            let mut m = text::copy("Failed to spawn process: ");
            m.append(cause.as_str());
            m
        },
        CheckOutcome::NoStdout => text::copy("Failed to pipe process stdout"),
        CheckOutcome::NoStderr => text::copy("Failed to pipe process stderr"),
        CheckOutcome::TimedOut => text::copy("Timed out after 120s"),
        CheckOutcome::Finished { success, exit_code, stdout, stderr } => {
            passed = success;
            code = exit_code;
            combine_output(decode_lossy(&stdout), decode_lossy(&stderr))
        },
    };
    CheckResult { command: text::copy(command), passed, exit_code: code, output }
}

/// The output of a check is never longer than the limit and the notice of truncation.
pub proof fn law_check_output_is_bounded(stdout: Seq<char>, stderr: Seq<char>)
    ensures
        text::byte_len(combined_output(stdout, stderr)) <= OUTPUT_CAP_BYTES + 23,
{
    let whole = if stderr.len() == 0 {
        stdout
    } else if stdout.len() == 0 {
        stderr
    } else {
        stdout + "\n---stderr---\n"@ + stderr
    };
    utils::law_truncation_bounds_the_size(whole, OUTPUT_CAP_BYTES as nat);
}

/// The checks are those of the target, in order, and that of the branch tool behind them.
pub proof fn law_checks_are_those_of_the_target(target: Target, i: int)
    requires
        0 <= i < target.pre_push_checks@.len(),
    ensures
        checks_of(target, false).len() == target.pre_push_checks@.len(),
        checks_of(target, true).len() == target.pre_push_checks@.len() + 1,
        checks_of(target, false)[i] == target.pre_push_checks@[i]@,
        checks_of(target, true)[i] == target.pre_push_checks@[i]@,
        checks_of(target, true).last() == "but validate"@,
{
}

/// Output within the limit is shown whole: that of one stream as it is, that of both with a line
/// in between.
pub proof fn law_short_output_is_shown_whole(stdout: Seq<char>, stderr: Seq<char>)
    requires
        text::byte_len(stdout + "\n---stderr---\n"@ + stderr) <= 512 * 1024,
    ensures
        stdout.len() > 0 && stderr.len() > 0 ==> combined_output(stdout, stderr) == stdout
            + "\n---stderr---\n"@ + stderr,
        stderr.len() == 0 ==> combined_output(stdout, stderr) == stdout,
        stdout.len() == 0 ==> combined_output(stdout, stderr) == stderr,
{
    let mark = "\n---stderr---\n"@;
    text::lemma_byte_len_concat(stdout + mark, stderr);
    text::lemma_byte_len_concat(stdout, mark);
    if stdout.len() == 0 {
        assert(stdout =~= Seq::<char>::empty());
        if stderr.len() == 0 {
            assert(stderr =~= stdout);
        }
    }
}

/// Two minutes are allowed for a check, half a mebibyte of output, and half of that for each
/// stream.
pub proof fn law_checks_have_their_limits()
    ensures
        CHECK_TIMEOUT_SECS == 2 * 60,
        OUTPUT_CAP_BYTES == 512 * 1024,
        2 * STREAM_CAP_BYTES == OUTPUT_CAP_BYTES,
{
}

/// A check that ran out of time says how long it was allowed to run.
pub proof fn law_a_timeout_names_the_limit()
    ensures
        outcome_output(CheckOutcome::TimedOut) == "Timed out after "@ + text::decimal(
            CHECK_TIMEOUT_SECS as nat,
        ) + "s"@,
{
    reveal_with_fuel(text::decimal, 4);
    reveal_strlit("Timed out after 120s");
    reveal_strlit("Timed out after ");
    reveal_strlit("s");
    assert(text::decimal(CHECK_TIMEOUT_SECS as nat) =~= seq!['1', '2', '0']);
    assert(outcome_output(CheckOutcome::TimedOut) =~= "Timed out after "@ + text::decimal(
        CHECK_TIMEOUT_SECS as nat,
    ) + "s"@);
}

} // verus!
