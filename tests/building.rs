use evm_bench::builder::{build_paths, finish_build, plan_build, BuildError, BuildPaths};
use evm_bench::model::{
    check_benchmarks, check_runners, Benchmark, BenchmarkDefaults, MetadataError, PartialBenchmark, Runner,
};
use evm_bench::run::RunOutcome;

fn mint() -> Benchmark {
    Benchmark {
        name: "erc20.mint".to_string(),
        solc_version: "stable".to_string(),
        num_runs: 5,
        contract: "/root/b/erc20/mint/ERC20Mint.sol".to_string(),
        build_context: "/root/b/erc20".to_string(),
        calldata: vec![0x30, 0x62, 0x7b, 0x7c],
    }
}

fn mint_paths() -> BuildPaths {
    build_paths(&mint(), "/out/build").unwrap()
}

#[test]
fn artifact_lies_in_the_benchmarks_own_directory() {
    let p = mint_paths();
    assert_eq!(p.build_dir, "/out/build/erc20.mint");
    assert_eq!(p.contract_bin_path, "/out/build/erc20.mint/ERC20Mint.bin");
    assert_eq!(p.container_contract_path, "/benchmark/mint/ERC20Mint.sol");
}

#[test]
fn contract_outside_its_context_is_refused() {
    let mut b = mint();
    b.build_context = "/elsewhere".to_string();
    assert_eq!(build_paths(&b, "/out/build"), Err(BuildError::OutsideContext));
    b.contract = "/".to_string();
    assert_eq!(build_paths(&b, "/out/build"), Err(BuildError::NoFileName));
}

#[test]
fn cached_artifact_skips_the_compiler_unless_forced() {
    let p = mint_paths();
    assert_eq!(plan_build(&mint(), &p, false, true, "docker", 1000, 1000), None);
    assert!(plan_build(&mint(), &p, false, false, "docker", 1000, 1000).is_some());
    assert!(plan_build(&mint(), &p, true, true, "docker", 1000, 1000).is_some());
}

#[test]
fn building_twice_compiles_once_without_force() {
    let p = mint_paths();
    for (force, expected) in [(false, 1), (true, 2)] {
        let mut on_disk = false;
        let mut compiles = 0;
        for _ in 0..2 {
            if plan_build(&mint(), &p, force, on_disk, "docker", 0, 0).is_some() {
                compiles += 1;
                on_disk = true;
            }
        }
        assert_eq!(compiles, expected);
    }
}

#[test]
fn compiler_command_line() {
    let inv = plan_build(&mint(), &mint_paths(), true, true, "/usr/bin/docker", 1000, 100).unwrap();
    assert_eq!(inv.program, "/usr/bin/docker");
    assert_eq!(
        inv.args,
        vec![
            "run",
            "-u",
            "1000:100",
            "-v",
            "/root/b/erc20:/benchmark",
            "-v",
            "/out/build/erc20.mint:/build",
            "ethereum/solc:stable",
            "-o",
            "/build",
            "--optimize",
            "--optimize-runs=1000000",
            "--abi",
            "--bin",
            "--bin-runtime",
            "--overwrite",
            "/benchmark/mint/ERC20Mint.sol"
        ]
    );
}

#[test]
fn compiler_failure_stops_the_build() {
    let p = mint_paths();
    let built = finish_build(&mint(), &p, &None).unwrap();
    assert_eq!(built.result.contract_bin_path, "/out/build/erc20.mint/ERC20Mint.bin");
    assert_eq!(built.benchmark, mint());
    let ok = RunOutcome::Exited { success: true, code: Some(0), stdout: Vec::new() };
    assert!(finish_build(&mint(), &p, &Some(ok)).is_ok());
    let bad = RunOutcome::Exited { success: false, code: Some(1), stdout: Vec::new() };
    assert_eq!(finish_build(&mint(), &p, &Some(bad)), Err(BuildError::CompilerFailed { code: Some(1) }));
    assert_eq!(finish_build(&mint(), &p, &Some(RunOutcome::SpawnFailed)), Err(BuildError::CompilerNotStarted));
}

#[test]
fn discovered_sets_need_members_and_distinct_names() {
    assert_eq!(check_benchmarks(&Vec::new()), Err(MetadataError::Empty));
    assert_eq!(check_benchmarks(&vec![mint()]), Ok(()));
    assert_eq!(check_benchmarks(&vec![mint(), mint()]), Err(MetadataError::DuplicateName));
    let r = |n: &str| Runner { name: n.to_string(), entry: "/e".to_string() };
    assert_eq!(check_runners(&vec![r("a"), r("b")]), Ok(()));
    assert_eq!(check_runners(&vec![r("a"), r("b"), r("a")]), Err(MetadataError::DuplicateName));
    assert_eq!(check_runners(&Vec::new()), Err(MetadataError::Empty));
}

#[test]
fn metadata_defaults_fill_missing_fields() {
    let defaults = BenchmarkDefaults { solc_version: "stable".to_string(), num_runs: 10, calldata: vec![1] };
    let partial = PartialBenchmark {
        name: "x".to_string(),
        solc_version: None,
        num_runs: Some(3),
        contract: "/b/x.sol".to_string(),
        build_context: "/b".to_string(),
        calldata: None,
    };
    let b = partial.resolve(&defaults);
    assert_eq!(b.solc_version, "stable");
    assert_eq!(b.num_runs, 3);
    assert_eq!(b.calldata, vec![1]);
    assert_eq!(b.contract, "/b/x.sol");
}

#[test]
fn selection_by_name_keeps_name_order() {
    let names: Vec<String> = ["b", "a", "c"].iter().map(|s| s.to_string()).collect();
    assert_eq!(evm_bench::model::select_by_name(&names, &None), Ok(vec![1, 0, 2]));
    let wanted = Some(vec!["c".to_string(), "a".to_string()]);
    assert_eq!(evm_bench::model::select_by_name(&names, &wanted), Ok(vec![1, 2]));
    let wanted = Some(vec!["x".to_string(), "a".to_string(), "y".to_string()]);
    assert_eq!(evm_bench::model::select_by_name(&names, &wanted), Err(vec!["x".to_string(), "y".to_string()]));
}
