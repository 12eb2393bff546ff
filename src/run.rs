//! The execution engine: the command line of each (benchmark, runner)
//! pair, and what becomes of the pair's subprocess outcome. A failing pair
//! is recorded with no samples and never touches another pair.

use crate::model::{Benchmark, Runner};
use crate::number::{line_fits, lines_nanos, parse_millis};
use crate::protocol::{output_line_ranges, output_lines};
use crate::text::{decimal_string, decimal_text, encode_hex, hex_text};
use vstd::prelude::*;

verus! {

/// Where the build engine left a benchmark's compiled bytecode.
#[derive(Clone, Debug, PartialEq, Eq)]
pub struct BuildResult {
    pub contract_bin_path: String,
}

/// A benchmark together with its compiled bytecode.
#[derive(Clone, Debug, PartialEq, Eq)]
pub struct BuiltBenchmark {
    pub benchmark: Benchmark,
    pub result: BuildResult,
}

/// The samples of one (benchmark, runner) pair, in nanoseconds, one per
/// completed run; empty when the pair failed.
#[derive(Clone, Debug, PartialEq, Eq)]
pub struct RunResult {
    pub run_times: Vec<u64>,
}

impl RunResult {
    /// A copy with the same samples.
    pub fn duplicate(&self) -> (r: RunResult)
        ensures
            r.run_times@ == self.run_times@,
    {
        let run_times = self.run_times.clone();
        assert(run_times@ =~= self.run_times@);
        RunResult { run_times }
    }
}

/// What came of starting a runner's subprocess.
#[derive(Clone, Debug, PartialEq, Eq)]
pub enum RunOutcome {
    /// The executable could not be started.
    SpawnFailed,
    /// It ran to its end: whether its exit status told success, its exit
    /// code if it had one, and what it wrote to standard output.
    Exited { success: bool, code: Option<i32>, stdout: Vec<u8> },
}

/// Why a pair has no samples.
#[derive(Clone, Copy, Debug, PartialEq, Eq)]
pub enum RunError {
    /// The runner could not be started.
    SpawnFailed,
    /// The runner's exit status told failure.
    ExitFailure { code: Option<i32> },
    /// The output line at this index (from zero) holds no finite number of
    /// milliseconds at least zero, or one too large for 64 bits of nanoseconds.
    BadLine { line: usize },
}

/// The index of the first line that holds no duration.
pub open spec fn first_bad_line(ls: Seq<Seq<u8>>) -> int {
    choose|k: int| 0 <= k < ls.len() && !line_fits(ls[k]) && forall|j: int| 0 <= j < k ==> line_fits(#[trigger] ls[j])
}

/// The samples that a successful runner's output holds, or why it holds none.
pub open spec fn output_samples(out: Seq<u8>) -> Result<Seq<u64>, RunError> {
    let ls = output_lines(out);
    if forall|k: int| 0 <= k < ls.len() ==> line_fits(#[trigger] ls[k]) {
        Ok(lines_nanos(ls))
    } else {
        Err(RunError::BadLine { line: first_bad_line(ls) as usize })
    }
}

/// The samples of a pair from its subprocess outcome, or why it has none.
pub open spec fn outcome_samples(o: RunOutcome) -> Result<Seq<u64>, RunError> {
    match o {
        RunOutcome::SpawnFailed => Err(RunError::SpawnFailed),
        RunOutcome::Exited { success, code, stdout } => if success {
            output_samples(stdout@)
        } else {
            Err(RunError::ExitFailure { code })
        },
    }
}

/// The samples that the matrix records for a pair: none when it failed.
pub open spec fn recorded_samples(o: RunOutcome) -> Seq<u64> {
    match outcome_samples(o) {
        Ok(t) => t,
        Err(_) => Seq::empty(),
    }
}

/// The samples that a runner's standard output holds, one per line.
pub fn parse_run_times(stdout: &Vec<u8>) -> (r: Result<RunResult, RunError>)
    ensures
        match r {
            Ok(rr) => output_samples(stdout@) == Ok::<Seq<u64>, RunError>(rr.run_times@),
            Err(e) => output_samples(stdout@) == Err::<Seq<u64>, RunError>(e),
        },
{
    let ranges = output_line_ranges(stdout);
    let ghost ls = output_lines(stdout@);
    let mut times: Vec<u64> = Vec::new();
    let mut k: usize = 0;
    while k < ranges.len()
        invariant
            k <= ranges.len() == ls.len(),
            ls == output_lines(stdout@),
            forall|i: int|
                0 <= i < ranges.len() ==> {
                    &&& #[trigger] ranges[i].0 <= ranges[i].1 <= stdout.len()
                    &&& stdout@.subrange(ranges[i].0 as int, ranges[i].1 as int) == ls[i]
                },
            times@ == lines_nanos(ls.subrange(0, k as int)),
            forall|j: int| 0 <= j < k ==> line_fits(#[trigger] ls[j]),
        decreases ranges.len() - k,
    {
        let (from, to) = ranges[k];
        assert(ranges[k as int].0 <= ranges[k as int].1);
        match parse_millis(stdout, from, to) {
            Some(n) => {
                times.push(n);
                assert(lines_nanos(ls.subrange(0, k + 1)) =~= lines_nanos(ls.subrange(0, k as int)).push(n));
            },
            None => {
                assert(!line_fits(ls[k as int]));
                assert(first_bad_line(ls) == k) by {
                    let c = first_bad_line(ls);
                    assert(0 <= k < ls.len() && !line_fits(ls[k as int]) && forall|j: int| 0 <= j < k ==> line_fits(#[trigger] ls[j]));
                    if c < k {
                        assert(line_fits(ls[c]));
                    } else if c > k {
                        assert(line_fits(ls[k as int]));
                    }
                }
                return Err(RunError::BadLine { line: k });
            },
        }
        k = k + 1;
    }
    assert(ls.subrange(0, k as int) =~= ls);
    Ok(RunResult { run_times: times })
}

/// The samples of a pair from its subprocess outcome, or why it has none:
/// a runner that could not start or that exited with failure has none,
/// whatever it printed; one that succeeded has a sample per output line,
/// unless a line holds no duration.
pub fn pair_result(outcome: &RunOutcome) -> (r: Result<RunResult, RunError>)
    ensures
        match r {
            Ok(rr) => outcome_samples(*outcome) == Ok::<Seq<u64>, RunError>(rr.run_times@),
            Err(e) => outcome_samples(*outcome) == Err::<Seq<u64>, RunError>(e),
        },
{
    match outcome {
        RunOutcome::SpawnFailed => Err(RunError::SpawnFailed),
        RunOutcome::Exited { success, code, stdout } => {
            if *success {
                parse_run_times(stdout)
            } else {
                Err(RunError::ExitFailure { code: *code })
            }
        },
    }
}

/// A subprocess to start: the executable and its arguments.
#[derive(Clone, Debug, PartialEq, Eq)]
pub struct Invocation {
    pub program: String,
    pub args: Vec<String>,
}

/// The command that runs a built benchmark on a runner: the runner's entry
/// point, given the bytecode's path, the calldata in hexadecimal and the
/// number of runs.
pub fn invocation(benchmark: &BuiltBenchmark, runner: &Runner) -> (r: Invocation)
    ensures
        r.program@ == runner.entry@,
        r.args.len() == 6,
        r.args[0]@ == "--contract-code-path"@,
        r.args[1]@ == benchmark.result.contract_bin_path@,
        r.args[2]@ == "--calldata"@,
        r.args[3]@ == hex_text(benchmark.benchmark.calldata@),
        r.args[4]@ == "--num-runs"@,
        r.args[5]@ == decimal_text(benchmark.benchmark.num_runs as nat),
{
    let mut args: Vec<String> = Vec::new();
    args.push("--contract-code-path".to_string());
    args.push(benchmark.result.contract_bin_path.clone());
    args.push("--calldata".to_string());
    args.push(encode_hex(benchmark.benchmark.calldata.as_slice()));
    args.push("--num-runs".to_string());
    args.push(decimal_string(benchmark.benchmark.num_runs));
    Invocation { program: runner.entry.clone(), args }
}

/// The samples of one runner for one benchmark.
#[derive(Clone, Debug, PartialEq, Eq)]
pub struct RunnerResult {
    pub runner: Runner,
    pub result: RunResult,
}

/// The row of the matrix for one benchmark: an entry per attempted runner.
#[derive(Clone, Debug, PartialEq, Eq)]
pub struct BenchmarkResults {
    pub benchmark: Benchmark,
    pub runs: Vec<RunnerResult>,
}

/// The result matrix, benchmark-major: a row per benchmark, an entry per
/// attempted (benchmark, runner) pair.
#[derive(Clone, Debug, PartialEq, Eq)]
pub struct Results {
    pub benchmarks: Vec<BenchmarkResults>,
}

/// A matrix in which names identify: no two benchmarks share a name, no
/// row has two entries for runners of the same name, and entries for
/// runners of the same name hold the same runner.
pub open spec fn is_keyed_by_name(m: Results) -> bool {
    &&& forall|i: int, k: int|
        0 <= i < k < m.benchmarks.len() ==> m.benchmarks[i].benchmark.name@
            != m.benchmarks[k].benchmark.name@
    &&& forall|i: int, j: int, k: int|
        0 <= i < m.benchmarks.len() && 0 <= j < k < m.benchmarks[i].runs.len() ==> m.benchmarks[i].runs[j].runner.name@
            != m.benchmarks[i].runs[k].runner.name@
    &&& forall|i: int, j: int, k: int, l: int|
        0 <= i < m.benchmarks.len() && 0 <= j < m.benchmarks[i].runs.len() && 0 <= k
            < m.benchmarks.len() && 0 <= l < m.benchmarks[k].runs.len()
            && m.benchmarks[i].runs[j].runner.name@ == m.benchmarks[k].runs[l].runner.name@
            ==> m.benchmarks[i].runs[j].runner@ == m.benchmarks[k].runs[l].runner@
}

/// The row that running `built` on `runners` gives, with `outcomes[j]` what
/// came of the subprocess of `runners[j]`.
pub open spec fn is_row_of(
    row: BenchmarkResults,
    built: BuiltBenchmark,
    runners: Seq<Runner>,
    outcomes: Seq<RunOutcome>,
) -> bool {
    &&& row.benchmark@ == built.benchmark@
    &&& row.runs.len() == runners.len()
    &&& forall|j: int|
        0 <= j < runners.len() ==> {
            &&& (#[trigger] row.runs[j]).runner@ == runners[j]@
            &&& row.runs[j].result.run_times@ == recorded_samples(outcomes[j])
        }
}

/// Runs a built benchmark on every runner, given what came of each
/// runner's subprocess: every runner gets an entry, with no samples where
/// its run failed.
pub fn run_benchmark_on_runners(
    benchmark: &BuiltBenchmark,
    runners: &Vec<Runner>,
    outcomes: &Vec<RunOutcome>,
) -> (r: BenchmarkResults)
    requires
        outcomes.len() == runners.len(),
    ensures
        is_row_of(r, *benchmark, runners@, outcomes@),
{
    let mut runs: Vec<RunnerResult> = Vec::new();
    for j in 0..runners.len()
        invariant
            outcomes.len() == runners.len(),
            runs.len() == j,
            forall|k: int|
                0 <= k < j ==> {
                    &&& (#[trigger] runs[k]).runner@ == runners[k]@
                    &&& runs[k].result.run_times@ == recorded_samples(outcomes[k])
                },
    {
        let result = match pair_result(&outcomes[j]) {
            Ok(rr) => rr,
            Err(_) => RunResult { run_times: Vec::new() },
        };
        runs.push(RunnerResult { runner: runners[j].duplicate(), result });
    }
    BenchmarkResults { benchmark: benchmark.benchmark.duplicate(), runs }
}

/// Runs every built benchmark on every runner, given what came of each
/// pair's subprocess (`outcomes[i][j]` for benchmark `i` and runner `j`):
/// the matrix is dense, and each pair's entry depends on its own outcome alone.
pub fn run_benchmarks_on_runners(
    benchmarks: &Vec<BuiltBenchmark>,
    runners: &Vec<Runner>,
    outcomes: &Vec<Vec<RunOutcome>>,
) -> (r: Results)
    requires
        outcomes.len() == benchmarks.len(),
        forall|i: int| 0 <= i < outcomes.len() ==> (#[trigger] outcomes[i]).len() == runners.len(),
    ensures
        r.benchmarks.len() == benchmarks.len(),
        (forall|a: int, b: int| 0 <= a < b < benchmarks.len() ==> benchmarks[a].benchmark.name@ != benchmarks[b].benchmark.name@)
            && (forall|a: int, b: int| 0 <= a < b < runners.len() ==> runners[a].name@ != runners[b].name@)
            ==> is_keyed_by_name(r),
        forall|i: int|
            0 <= i < benchmarks.len() ==> is_row_of(
                #[trigger] r.benchmarks[i],
                benchmarks[i],
                runners@,
                outcomes[i]@,
            ),
{
    let mut rows: Vec<BenchmarkResults> = Vec::new();
    for i in 0..benchmarks.len()
        invariant
            outcomes.len() == benchmarks.len(),
            forall|i: int| 0 <= i < outcomes.len() ==> (#[trigger] outcomes[i]).len() == runners.len(),
            rows.len() == i,
            forall|k: int|
                0 <= k < i ==> is_row_of(#[trigger] rows[k], benchmarks[k], runners@, outcomes[k]@),
    {
        let row = run_benchmark_on_runners(&benchmarks[i], runners, &outcomes[i]);
        rows.push(row);
    }
    let r = Results { benchmarks: rows };
    proof {
        if (forall|a: int, b: int| 0 <= a < b < benchmarks.len() ==> benchmarks[a].benchmark.name@ != benchmarks[b].benchmark.name@)
            && (forall|a: int, b: int| 0 <= a < b < runners.len() ==> runners[a].name@ != runners[b].name@) {
            assert forall|i: int, k: int| 0 <= i < k < r.benchmarks.len() implies r.benchmarks[i].benchmark.name@
                != r.benchmarks[k].benchmark.name@ by {
                assert(is_row_of(r.benchmarks[i], benchmarks[i], runners@, outcomes[i]@));
                assert(is_row_of(r.benchmarks[k], benchmarks[k], runners@, outcomes[k]@));
            }
            assert forall|i: int, j: int, k: int|
                0 <= i < r.benchmarks.len() && 0 <= j < k < r.benchmarks[i].runs.len() implies r.benchmarks[i].runs[j].runner.name@
                    != r.benchmarks[i].runs[k].runner.name@ by {
                assert(is_row_of(r.benchmarks[i], benchmarks[i], runners@, outcomes[i]@));
                assert(r.benchmarks[i].runs[j].runner@ == runners[j]@);
                assert(r.benchmarks[i].runs[k].runner@ == runners[k]@);
            }
            assert forall|i: int, j: int, k: int, l: int|
                0 <= i < r.benchmarks.len() && 0 <= j < r.benchmarks[i].runs.len() && 0 <= k < r.benchmarks.len() && 0 <= l
                    < r.benchmarks[k].runs.len() && r.benchmarks[i].runs[j].runner.name@ == r.benchmarks[k].runs[l].runner.name@
                    implies r.benchmarks[i].runs[j].runner@ == r.benchmarks[k].runs[l].runner@ by {
                assert(is_row_of(r.benchmarks[i], benchmarks[i], runners@, outcomes[i]@));
                assert(is_row_of(r.benchmarks[k], benchmarks[k], runners@, outcomes[k]@));
                assert(r.benchmarks[i].runs[j].runner@ == runners[j]@);
                assert(r.benchmarks[k].runs[l].runner@ == runners[l]@);
                if j < l {
                    assert(runners[j].name@ != runners[l].name@);
                } else if l < j {
                    assert(runners[l].name@ != runners[j].name@);
                }
            }
        }
    }
    r
}

/// A pair's failure is confined to it: when two outcome grids differ only
/// in one pair, and there the runner exited with failure, every other pair
/// records the same samples under both, and the failing pair records none.
pub proof fn lemma_pair_isolation(
    a: Seq<Seq<RunOutcome>>,
    b: Seq<Seq<RunOutcome>>,
    i: int,
    j: int,
)
    requires
        a.len() == b.len(),
        forall|x: int| 0 <= x < a.len() ==> (#[trigger] a[x]).len() == b[x].len(),
        0 <= i < b.len(),
        0 <= j < b[i].len(),
        forall|x: int, y: int|
            0 <= x < a.len() && 0 <= y < a[x].len() && (x != i || y != j) ==> #[trigger] a[x][y]
                == b[x][y],
        b[i][j] matches RunOutcome::Exited { success, .. } && !success,
    ensures
        recorded_samples(b[i][j]) == Seq::<u64>::empty(),
        forall|x: int, y: int|
            0 <= x < a.len() && 0 <= y < a[x].len() && (x != i || y != j) ==> recorded_samples(
                #[trigger] a[x][y],
            ) == recorded_samples(b[x][y]),
{
}

} // verus!
