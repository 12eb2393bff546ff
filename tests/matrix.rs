use evm_bench::model::{Benchmark, Runner};
use evm_bench::report::{duration_string, mean_of, relative_string};
use evm_bench::results::{results_file_name, NamedRunResult, NamedRuns, ResultsFormatted};
use evm_bench::run::{
    invocation, pair_result, parse_run_times, run_benchmark_on_runners, run_benchmarks_on_runners,
    BuildResult, BuiltBenchmark, RunError, RunOutcome, RunResult,
};

fn built(name: &str, num_runs: u64) -> BuiltBenchmark {
    BuiltBenchmark {
        benchmark: Benchmark {
            name: name.to_string(),
            solc_version: "stable".to_string(),
            num_runs,
            contract: format!("/bench/{name}/{name}.sol"),
            build_context: format!("/bench/{name}"),
            calldata: vec![0x30, 0x62, 0x7b, 0x7c],
        },
        result: BuildResult { contract_bin_path: format!("/out/build/{name}/{name}.bin") },
    }
}

fn runner(name: &str) -> Runner {
    Runner { name: name.to_string(), entry: format!("/runners/{name}/entry.sh") }
}

fn ok(stdout: &str) -> RunOutcome {
    RunOutcome::Exited { success: true, code: Some(0), stdout: stdout.as_bytes().to_vec() }
}

fn failed(code: i32) -> RunOutcome {
    RunOutcome::Exited { success: false, code: Some(code), stdout: Vec::new() }
}

fn times(outcome: RunOutcome) -> Vec<u64> {
    pair_result(&outcome).unwrap().run_times
}

/// Two benchmarks, a fast runner and a slow one that fails on the first.
fn scenario() -> (Vec<BuiltBenchmark>, Vec<Runner>, Vec<Vec<RunOutcome>>) {
    let benchmarks = vec![built("A", 3), built("B", 1)];
    let runners = vec![runner("fast"), runner("slow")];
    let outcomes = vec![vec![ok("1.0\n1.2\n0.9\n"), failed(1)], vec![ok("2.0\n"), ok("50.0\n")]];
    (benchmarks, runners, outcomes)
}

#[test]
fn scenario_table_ranks_fast_first_and_blanks_the_failed_pair() {
    let (benchmarks, runners, outcomes) = scenario();
    let matrix = run_benchmarks_on_runners(&benchmarks, &runners, &outcomes);
    let report = ResultsFormatted::new(&matrix).report().unwrap();
    assert_eq!(report.header, vec!["", "fast", "slow"]);
    assert_eq!(report.rows[0], vec!["**sum**", "3.033ms", "50.000ms"]);
    assert_eq!(report.rows[1], vec!["**relative**", "1.000x", "16.484x"]);
    assert_eq!(report.rows[2], vec!["A", "1.033ms", ""]);
    assert_eq!(report.rows[3], vec!["B", "2.000ms", "50.000ms"]);
    assert_eq!(report.totals, vec![3_033_333, 50_000_000]);
    assert_eq!(report.missing, vec![vec![false, false], vec![false, false]]);
}

#[test]
fn scenario_table_renders_as_markdown() {
    let (benchmarks, runners, outcomes) = scenario();
    let matrix = run_benchmarks_on_runners(&benchmarks, &runners, &outcomes);
    let table = ResultsFormatted::new(&matrix).table().unwrap().to_string();
    let lines: Vec<&str> = table.lines().collect();
    assert_eq!(lines.len(), 6);
    assert!(lines[0].contains("fast") && lines[0].contains("slow"));
    assert!(lines[2].contains("3.033ms") && lines[2].contains("50.000ms"));
}

#[test]
fn failing_pair_is_isolated() {
    let (benchmarks, runners, outcomes) = scenario();
    let matrix = run_benchmarks_on_runners(&benchmarks, &runners, &outcomes);
    assert_eq!(matrix.benchmarks.len(), 2);
    let a = &matrix.benchmarks[0];
    let b = &matrix.benchmarks[1];
    assert_eq!(a.runs.len(), 2);
    assert_eq!(a.runs[0].result.run_times, vec![1_000_000, 1_200_000, 900_000]);
    assert_eq!(a.runs[1].runner.name, "slow");
    assert!(a.runs[1].result.run_times.is_empty());
    assert_eq!(b.runs[0].result.run_times, vec![2_000_000]);
    assert_eq!(b.runs[1].result.run_times, vec![50_000_000]);
}

#[test]
fn every_pair_failing_still_gives_a_report_of_zeros() {
    let (benchmarks, runners, _) = scenario();
    let outcomes = vec![vec![failed(1), RunOutcome::SpawnFailed], vec![failed(2), failed(3)]];
    let matrix = run_benchmarks_on_runners(&benchmarks, &runners, &outcomes);
    let report = ResultsFormatted::new(&matrix).report().unwrap();
    assert_eq!(report.rows[0], vec!["**sum**", "0.000ns", "0.000ns"]);
    assert_eq!(report.rows[1], vec!["**relative**", "1.000x", "1.000x"]);
    assert_eq!(report.rows[2], vec!["A", "", ""]);
}

#[test]
fn one_runner_row_records_every_runner() {
    let (benchmarks, runners, outcomes) = scenario();
    let row = run_benchmark_on_runners(&benchmarks[0], &runners, &outcomes[0]);
    assert_eq!(row.benchmark, benchmarks[0].benchmark);
    assert_eq!(row.runs.len(), 2);
    assert_eq!(row.runs[1].result, RunResult { run_times: Vec::new() });
}

#[test]
fn persisting_and_loading_keeps_the_matrix() {
    let (benchmarks, runners, outcomes) = scenario();
    let matrix = run_benchmarks_on_runners(&benchmarks, &runners, &outcomes);
    let document = ResultsFormatted::new(&matrix);
    assert_eq!(document.runners.len(), 2);
    assert_eq!(document.benchmarks.len(), 2);
    assert_eq!(document.results().unwrap(), matrix);
}

#[test]
fn loading_refuses_an_unlisted_runner() {
    let (benchmarks, runners, outcomes) = scenario();
    let mut document = ResultsFormatted::new(&run_benchmarks_on_runners(&benchmarks, &runners, &outcomes));
    document.runners.pop();
    assert_eq!(document.results(), None);
}

#[test]
fn missing_benchmark_adds_zero_and_is_flagged() {
    let samples = |t: Vec<u64>| RunResult { run_times: t };
    let document = ResultsFormatted {
        benchmarks: vec![built("A", 1).benchmark, built("B", 1).benchmark],
        runners: vec![runner("one"), runner("two")],
        runs: vec![
            NamedRuns {
                benchmark: "A".to_string(),
                results: vec![
                    NamedRunResult { runner: "one".to_string(), result: samples(vec![1_000]) },
                    NamedRunResult { runner: "two".to_string(), result: samples(vec![3_000]) },
                ],
            },
            NamedRuns {
                benchmark: "B".to_string(),
                results: vec![NamedRunResult { runner: "one".to_string(), result: samples(vec![5_000]) }],
            },
        ],
    };
    let report = document.report().unwrap();
    assert_eq!(report.totals, vec![6_000, 3_000]);
    assert_eq!(report.header, vec!["", "two", "one"]);
    assert_eq!(report.rows[3], vec!["B", "", "5.000µs"]);
    assert_eq!(report.missing, vec![vec![false, false], vec![true, false]]);
    assert_eq!(report.rows[1], vec!["**relative**", "1.000x", "2.000x"]);
}

#[test]
fn ties_rank_by_name() {
    let document = ResultsFormatted {
        benchmarks: Vec::new(),
        runners: vec![runner("b"), runner("a")],
        runs: Vec::new(),
    };
    let report = document.report().unwrap();
    assert_eq!(report.header, vec!["", "a", "b"]);
    assert_eq!(report.runner_order, vec![1, 0]);
}

#[test]
fn parses_one_sample_per_line() {
    let r = parse_run_times(&b"1.0\n1.2\n0.9\n".to_vec()).unwrap();
    assert_eq!(r.run_times, vec![1_000_000, 1_200_000, 900_000]);
    let r = parse_run_times(&b"12\n.5\n7.".to_vec()).unwrap();
    assert_eq!(r.run_times, vec![12_000_000, 500_000, 7_000_000]);
    assert!(parse_run_times(&b" \n\t ".to_vec()).unwrap().run_times.is_empty());
}

#[test]
fn rounds_to_the_nearest_nanosecond_halves_up() {
    let r = parse_run_times(&b"  0.0000005\r\n0.0000004 \n".to_vec()).unwrap();
    assert_eq!(r.run_times, vec![1, 0]);
    let r = parse_run_times(&b"0.1234564999".to_vec()).unwrap();
    assert_eq!(r.run_times, vec![123_456]);
}

#[test]
fn largest_duration_fits_and_one_more_does_not() {
    let r = parse_run_times(&b"18446744073709.551615".to_vec()).unwrap();
    assert_eq!(r.run_times, vec![u64::MAX]);
    assert_eq!(parse_run_times(&b"18446744073709.551616".to_vec()), Err(RunError::BadLine { line: 0 }));
}

#[test]
fn refuses_lines_that_hold_no_finite_number_at_least_zero() {
    assert_eq!(parse_run_times(&b"1.0\nabc\n2.0".to_vec()), Err(RunError::BadLine { line: 1 }));
    assert_eq!(parse_run_times(&b"1.0\n\n2.0".to_vec()), Err(RunError::BadLine { line: 1 }));
    for bad in ["-1.0", "-1e-20", "1.0.0", ".", "1e", "e5", ".e3", "1e+", "inf", "NaN", "1e400", "++1", "1 0"] {
        assert_eq!(parse_run_times(&bad.as_bytes().to_vec()), Err(RunError::BadLine { line: 0 }), "{bad}");
    }
}

#[test]
fn reads_signs_and_exponents_as_floats_do() {
    let cases: [(&str, u64); 14] = [
        ("1e3", 1_000_000_000),
        ("1E-2", 10_000),
        ("+1.5", 1_500_000),
        ("2.5e1", 25_000_000),
        ("1.e3", 1_000_000_000),
        (".5E+1", 5_000_000),
        ("5e-7", 1),
        ("4e-7", 0),
        ("1e-400", 0),
        ("-0", 0),
        ("-0.0e5", 0),
        ("0e999999999999999999999999999999999", 0),
        ("1e-999999999999999999999999999999999", 0),
        ("18446744073709551615e-6", u64::MAX),
    ];
    for (line, nanos) in cases {
        assert_eq!(parse_run_times(&line.as_bytes().to_vec()).unwrap().run_times, vec![nanos], "{line}");
    }
    assert_eq!(
        parse_run_times(&b"1e999999999999999999999999999999999".to_vec()),
        Err(RunError::BadLine { line: 0 })
    );
    assert_eq!(parse_run_times(&b"18446744073709551616e-6".to_vec()), Err(RunError::BadLine { line: 0 }));
    assert_eq!(times(ok("1e3")), vec![1_000_000_000]);
}

#[test]
fn failed_runs_give_their_reason() {
    assert_eq!(pair_result(&RunOutcome::SpawnFailed), Err(RunError::SpawnFailed));
    let outcome = RunOutcome::Exited { success: false, code: Some(2), stdout: b"1.0\n".to_vec() };
    assert_eq!(pair_result(&outcome), Err(RunError::ExitFailure { code: Some(2) }));
    assert_eq!(times(ok("3.5")), vec![3_500_000]);
}

#[test]
fn runner_command_line() {
    let b = built("erc20.mint", 5);
    let inv = invocation(&b, &runner("revm"));
    assert_eq!(inv.program, "/runners/revm/entry.sh");
    assert_eq!(
        inv.args,
        vec![
            "--contract-code-path",
            "/out/build/erc20.mint/erc20.mint.bin",
            "--calldata",
            "30627b7c",
            "--num-runs",
            "5"
        ]
    );
}

#[test]
fn durations_show_in_their_unit() {
    assert_eq!(duration_string(0), "0.000ns");
    assert_eq!(duration_string(999), "999.000ns");
    assert_eq!(duration_string(1_500), "1.500\u{b5}s");
    assert_eq!(duration_string(41_215_000), "41.215ms");
    assert_eq!(duration_string(2_674_000_000), "2.674s");
    assert_eq!(duration_string(1_999_500), "2.000ms");
    assert_eq!(duration_string(999_999_500), "1000.000ms");
}

#[test]
fn multipliers_against_the_fastest() {
    assert_eq!(relative_string(0, 0), "1.000x");
    assert_eq!(relative_string(5, 0), "infx");
    assert_eq!(relative_string(51_224, 41_215), "1.243x");
    assert_eq!(relative_string(41_215, 41_215), "1.000x");
}

#[test]
fn means_round_half_up() {
    assert_eq!(mean_of(&vec![1, 2]), 2);
    assert_eq!(mean_of(&vec![1, 1, 2]), 1);
    assert_eq!(mean_of(&vec![u64::MAX, u64::MAX]), u64::MAX as u128);
}

#[test]
fn results_file_names() {
    assert_eq!(results_file_name(Some("x.json".to_string()), "now"), "x.json");
    assert_eq!(
        results_file_name(None, "2024-01-01T00:00:00+00:00"),
        "2024-01-01T00:00:00+00:00.evm-bench.results.json"
    );
}
