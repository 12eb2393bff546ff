//! The build engine's decisions: where a benchmark's bytecode goes, whether
//! the compiler must run, the containerised compiler's command, and what a
//! compiler run means for the benchmark.

use crate::model::Benchmark;
use crate::run::{BuildResult, BuiltBenchmark, Invocation, RunOutcome};
use crate::text::{decimal_text, push_decimal};
use vstd::prelude::*;
use vstd::string::StringExecFns;

verus! {

/// What `Path::join` gives for `base` and `part` on Unix: `part` alone when
/// it is absolute, else `base`, a separator unless `base` is empty or
/// already ends in one, then `part`.
pub open spec fn joined_path(base: Seq<char>, part: Seq<char>) -> Seq<char> {
    if part.len() > 0 && part[0] == '/' {
        part
    } else if base.len() == 0 || base.last() == '/' {
        base + part
    } else {
        base + seq!['/'] + part
    }
}

/// What `Path::file_name` gives for `p`.
pub uninterp spec fn file_name_of(p: Seq<char>) -> Option<Seq<char>>;

/// What `Path::with_extension` gives for `p` and `ext`.
pub uninterp spec fn with_extension_of(p: Seq<char>, ext: Seq<char>) -> Seq<char>;

/// What `Path::strip_prefix` gives for `p` and `base`.
pub uninterp spec fn stripped_path(p: Seq<char>, base: Seq<char>) -> Option<Seq<char>>;

/// Relies on Path::join (PathBuf::push): `part` adjoined to `base`, or
/// replacing it when absolute.
#[verifier::external_body]
fn path_join(base: &str, part: &str) -> (r: String)
    ensures
        r@ == joined_path(base@, part@),
{
    std::path::Path::new(base).join(part).to_string_lossy().into_owned()
}

/// Relies on Path::file_name: the final component of `p`, if it names a file.
#[verifier::external_body]
fn path_file_name(p: &str) -> (r: Option<String>)
    ensures
        r is Some <==> file_name_of(p@) is Some,
        r is Some ==> r->0@ == file_name_of(p@)->0,
{
    std::path::Path::new(p).file_name().map(|f| f.to_string_lossy().into_owned())
}

/// Relies on Path::with_extension: `p` with its extension replaced by `ext`,
/// which holds no separator (`set_extension` panics on one).
#[verifier::external_body]
fn path_with_extension(p: &str, ext: &str) -> (r: String)
    requires
        forall|i: int| 0 <= i < ext@.len() ==> ext@[i] != '/',
    ensures
        r@ == with_extension_of(p@, ext@),
{
    std::path::Path::new(p).with_extension(ext).to_string_lossy().into_owned()
}

/// Relies on Path::strip_prefix: `p` relative to `base`, if `base` is a
/// prefix of it.
#[verifier::external_body]
fn path_strip_prefix(p: &str, base: &str) -> (r: Option<String>)
    ensures
        r is Some <==> stripped_path(p@, base@) is Some,
        r is Some ==> r->0@ == stripped_path(p@, base@)->0,
{
    std::path::Path::new(p).strip_prefix(base).ok().map(|q| q.to_string_lossy().into_owned())
}

/// Why a benchmark could not be built. Every one of them stops the batch.
#[derive(Clone, Copy, Debug, PartialEq, Eq)]
pub enum BuildError {
    /// The contract path names no file.
    NoFileName,
    /// The contract does not lie inside the benchmark's build context.
    OutsideContext,
    /// The compiler could not be started.
    CompilerNotStarted,
    /// The compiler's exit status told failure.
    CompilerFailed { code: Option<i32> },
}

/// Where a benchmark's build goes, and where the compiler sees its contract.
#[derive(Clone, Debug, PartialEq, Eq)]
pub struct BuildPaths {
    /// One directory per benchmark name, under the shared build root.
    pub build_dir: String,
    /// The compiled bytecode: the contract's file name with extension `bin`.
    pub contract_bin_path: String,
    /// The contract's path inside the compiler's container.
    pub container_contract_path: String,
}

/// The directory in the container where the build context is mounted.
pub open spec fn container_context() -> Seq<char> {
    "/benchmark"@
}

/// The directory in the container where the build output is mounted.
pub open spec fn container_output() -> Seq<char> {
    "/build"@
}

/// The paths of the build of `b` under the root `builds_path`.
pub fn build_paths(benchmark: &Benchmark, builds_path: &str) -> (r: Result<BuildPaths, BuildError>)
    ensures
        match r {
            Ok(p) => {
                &&& file_name_of(benchmark.contract@) is Some
                &&& stripped_path(benchmark.contract@, benchmark.build_context@) is Some
                &&& p.build_dir@ == joined_path(builds_path@, benchmark.name@)
                &&& p.contract_bin_path@ == with_extension_of(
                    joined_path(p.build_dir@, file_name_of(benchmark.contract@)->0),
                    "bin"@,
                )
                &&& p.container_contract_path@ == joined_path(
                    container_context(),
                    stripped_path(benchmark.contract@, benchmark.build_context@)->0,
                )
            },
            Err(e) => {
                ||| (e == BuildError::NoFileName && file_name_of(benchmark.contract@) is None)
                ||| (e == BuildError::OutsideContext && file_name_of(benchmark.contract@) is Some
                    && stripped_path(benchmark.contract@, benchmark.build_context@) is None)
            },
        },
{
    let contract_name = match path_file_name(benchmark.contract.as_str()) {
        Some(f) => f,
        None => {
            return Err(BuildError::NoFileName);
        },
    };
    let relative = match path_strip_prefix(benchmark.contract.as_str(), benchmark.build_context.as_str()) {
        Some(q) => q,
        None => {
            return Err(BuildError::OutsideContext);
        },
    };
    let build_dir = path_join(builds_path, benchmark.name.as_str());
    let bin = path_join(build_dir.as_str(), contract_name.as_str());
    proof {
        reveal_strlit("bin");
    }
    let contract_bin_path = path_with_extension(bin.as_str(), "bin");
    let container_contract_path = path_join("/benchmark", relative.as_str());
    Ok(BuildPaths { build_dir, contract_bin_path, container_contract_path })
}

/// Whether the compiler runs: always when forced, else only when no
/// artifact is there yet. The cache goes by existence alone.
pub open spec fn compiles(force: bool, artifact_exists: bool) -> bool {
    force || !artifact_exists
}

/// Built twice, without force a benchmark is compiled at most once, and
/// with force each time: a successful compile leaves the artifact that
/// the next build finds.
pub proof fn lemma_cache_short_circuit(force: bool, exists_before: bool)
    ensures
        ({
            let first = compiles(force, exists_before);
            let second = compiles(force, exists_before || first);
            &&& !force ==> !(first && second)
            &&& force ==> first && second
        }),
{
}

/// The compiler's arguments for a build of `b`.
pub open spec fn compile_args(b: Benchmark, p: BuildPaths, uid: u32, gid: u32) -> Seq<Seq<char>> {
    seq![
        "run"@,
        "-u"@,
        decimal_text(uid as nat) + seq![':'] + decimal_text(gid as nat),
        "-v"@,
        b.build_context@ + seq![':'] + container_context(),
        "-v"@,
        p.build_dir@ + seq![':'] + container_output(),
        "ethereum/solc:"@ + b.solc_version@,
        "-o"@,
        container_output(),
        "--optimize"@,
        "--optimize-runs=1000000"@,
        "--abi"@,
        "--bin"@,
        "--bin-runtime"@,
        "--overwrite"@,
        p.container_contract_path@,
    ]
}

/// The compiler command of a build, or `None` when the artifact is reused:
/// the container runtime `docker` runs the declared compiler version as the
/// user `uid:gid`, with the build context and the build directory mounted,
/// for optimised bytecode, runtime bytecode and ABI.
pub fn plan_build(
    benchmark: &Benchmark,
    paths: &BuildPaths,
    force: bool,
    artifact_exists: bool,
    docker: &str,
    uid: u32,
    gid: u32,
) -> (r: Option<Invocation>)
    ensures
        r is Some <==> compiles(force, artifact_exists),
        r is Some ==> r->0.program@ == docker@ && r->0.args@.map_values(|a: String| a@) == compile_args(
            *benchmark,
            *paths,
            uid,
            gid,
        ),
{
    if !force && artifact_exists {
        return None;
    }
    let mut user = String::new();
    push_decimal(&mut user, uid as u128);
    user.append(":");
    push_decimal(&mut user, gid as u128);
    let mut context_mount = benchmark.build_context.clone();
    context_mount.append(":/benchmark");
    let mut output_mount = paths.build_dir.clone();
    output_mount.append(":/build");
    let mut image = "ethereum/solc:".to_string();
    image.append(benchmark.solc_version.as_str());
    let mut args: Vec<String> = Vec::new();
    args.push("run".to_string());
    args.push("-u".to_string());
    args.push(user);
    args.push("-v".to_string());
    args.push(context_mount);
    args.push("-v".to_string());
    args.push(output_mount);
    args.push(image);
    args.push("-o".to_string());
    args.push("/build".to_string());
    args.push("--optimize".to_string());
    args.push("--optimize-runs=1000000".to_string());
    args.push("--abi".to_string());
    args.push("--bin".to_string());
    args.push("--bin-runtime".to_string());
    args.push("--overwrite".to_string());
    args.push(paths.container_contract_path.clone());
    proof {
        reveal_strlit(":");
        reveal_strlit(":/benchmark");
        reveal_strlit("/benchmark");
        reveal_strlit(":/build");
        reveal_strlit("/build");
    }
    assert(args[2]@ =~= decimal_text(uid as nat) + seq![':'] + decimal_text(gid as nat));
    assert(args[4]@ =~= benchmark.build_context@ + seq![':'] + container_context());
    assert(args[6]@ =~= paths.build_dir@ + seq![':'] + container_output());
    assert(args@.map_values(|a: String| a@) =~= compile_args(*benchmark, *paths, uid, gid));
    Some(Invocation { program: docker.to_string(), args })
}

/// The built benchmark, given what came of the compiler (`None` when the
/// artifact was reused): a compiler that could not start or that failed
/// stops the batch.
pub fn finish_build(
    benchmark: &Benchmark,
    paths: &BuildPaths,
    compiler: &Option<RunOutcome>,
) -> (r: Result<BuiltBenchmark, BuildError>)
    ensures
        match r {
            Ok(b) => {
                &&& b.benchmark@ == benchmark@
                &&& b.result.contract_bin_path@ == paths.contract_bin_path@
                &&& match *compiler {
                    Some(RunOutcome::Exited { success, .. }) => success,
                    Some(RunOutcome::SpawnFailed) => false,
                    None => true,
                }
            },
            Err(e) => match *compiler {
                Some(RunOutcome::Exited { success, code, .. }) => !success && e == BuildError::CompilerFailed { code },
                Some(RunOutcome::SpawnFailed) => e == BuildError::CompilerNotStarted,
                None => false,
            },
        },
{
    match compiler {
        Some(RunOutcome::SpawnFailed) => {
            return Err(BuildError::CompilerNotStarted);
        },
        Some(RunOutcome::Exited { success, code, .. }) => {
            if !*success {
                return Err(BuildError::CompilerFailed { code: *code });
            }
        },
        None => {},
    }
    Ok(
        BuiltBenchmark {
            benchmark: benchmark.duplicate(),
            result: BuildResult { contract_bin_path: paths.contract_bin_path.clone() },
        },
    )
}

} // verus!
