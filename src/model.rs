//! Benchmarks and runners: the immutable entities of the matrix, each
//! identified by its name.

use crate::order::{is_permutation, lemma_permutation_covers, ranking, ranks_before_or_with, text_lt};
use vstd::prelude::*;

verus! {

/// A benchmark: a contract, the compiler version that builds it, how many
/// times to run it and the calldata of each run. Paths are absolute and
/// resolved when the benchmark is discovered.
#[derive(Clone, Debug, PartialEq, Eq)]
pub struct Benchmark {
    pub name: String,
    pub solc_version: String,
    pub num_runs: u64,
    pub contract: String,
    pub build_context: String,
    pub calldata: Vec<u8>,
}

pub struct BenchmarkView {
    pub name: Seq<char>,
    pub solc_version: Seq<char>,
    pub num_runs: u64,
    pub contract: Seq<char>,
    pub build_context: Seq<char>,
    pub calldata: Seq<u8>,
}

impl View for Benchmark {
    type V = BenchmarkView;

    open spec fn view(&self) -> BenchmarkView {
        BenchmarkView {
            name: self.name@,
            solc_version: self.solc_version@,
            num_runs: self.num_runs,
            contract: self.contract@,
            build_context: self.build_context@,
            calldata: self.calldata@,
        }
    }
}

impl Benchmark {
    /// A copy with the same contents.
    pub fn duplicate(&self) -> (r: Benchmark)
        ensures
            r@ == self@,
    {
        let calldata = self.calldata.clone();
        assert(calldata@ =~= self.calldata@);
        Benchmark {
            name: self.name.clone(),
            solc_version: self.solc_version.clone(),
            num_runs: self.num_runs,
            contract: self.contract.clone(),
            build_context: self.build_context.clone(),
            calldata,
        }
    }
}

/// What a benchmark's metadata may leave out.
pub struct BenchmarkDefaults {
    pub solc_version: String,
    pub num_runs: u64,
    pub calldata: Vec<u8>,
}

/// A benchmark as its metadata file states it: fields it leaves out take
/// the defaults. The paths are already resolved against the file's directory.
pub struct PartialBenchmark {
    pub name: String,
    pub solc_version: Option<String>,
    pub num_runs: Option<u64>,
    pub contract: String,
    pub build_context: String,
    pub calldata: Option<Vec<u8>>,
}

impl PartialBenchmark {
    /// The benchmark with each missing field taken from `defaults`.
    pub fn resolve(self, defaults: &BenchmarkDefaults) -> (r: Benchmark)
        ensures
            r.name@ == self.name@,
            r.solc_version@ == match self.solc_version {
                Some(v) => v@,
                None => defaults.solc_version@,
            },
            r.num_runs == match self.num_runs {
                Some(n) => n,
                None => defaults.num_runs,
            },
            r.contract@ == self.contract@,
            r.build_context@ == self.build_context@,
            r.calldata@ == match self.calldata {
                Some(c) => c@,
                None => defaults.calldata@,
            },
    {
        let solc_version = match self.solc_version {
            Some(v) => v,
            None => defaults.solc_version.clone(),
        };
        let num_runs = match self.num_runs {
            Some(n) => n,
            None => defaults.num_runs,
        };
        let calldata = match self.calldata {
            Some(c) => c,
            None => {
                let c = defaults.calldata.clone();
                assert(c@ =~= defaults.calldata@);
                c
            },
        };
        Benchmark {
            name: self.name,
            solc_version,
            num_runs,
            contract: self.contract,
            build_context: self.build_context,
            calldata,
        }
    }
}

/// A runner: an executable that runs compiled contracts and reports timings.
#[derive(Clone, Debug, PartialEq, Eq)]
pub struct Runner {
    pub name: String,
    pub entry: String,
}

pub struct RunnerView {
    pub name: Seq<char>,
    pub entry: Seq<char>,
}

impl View for Runner {
    type V = RunnerView;

    open spec fn view(&self) -> RunnerView {
        RunnerView { name: self.name@, entry: self.entry@ }
    }
}

impl Runner {
    /// A copy with the same contents.
    pub fn duplicate(&self) -> (r: Runner)
        ensures
            r@ == self@,
    {
        Runner { name: self.name.clone(), entry: self.entry.clone() }
    }
}

/// Why a discovered set of benchmarks or runners is refused.
#[derive(Clone, Copy, Debug, PartialEq, Eq)]
pub enum MetadataError {
    /// Nothing was found.
    Empty,
    /// Two entries share a name.
    DuplicateName,
}

/// No two of `names` are equal.
pub open spec fn names_distinct(names: Seq<Seq<char>>) -> bool {
    forall|i: int, j: int| 0 <= i < j < names.len() ==> names[i] != names[j]
}

pub open spec fn benchmark_names(bs: Seq<Benchmark>) -> Seq<Seq<char>> {
    bs.map_values(|b: Benchmark| b.name@)
}

pub open spec fn runner_names(rs: Seq<Runner>) -> Seq<Seq<char>> {
    rs.map_values(|r: Runner| r.name@)
}

/// The verdict on a discovered set: refused when empty or when two share a name.
pub open spec fn set_verdict(names: Seq<Seq<char>>) -> Result<(), MetadataError> {
    if names.len() == 0 {
        Err(MetadataError::Empty)
    } else if !names_distinct(names) {
        Err(MetadataError::DuplicateName)
    } else {
        Ok(())
    }
}

fn check_names(names: &Vec<String>) -> (r: Result<(), MetadataError>)
    ensures
        r == set_verdict(Seq::new(names.len() as nat, |k: int| names[k]@)),
{
    let ghost ns = Seq::new(names.len() as nat, |k: int| names[k]@);
    if names.len() == 0 {
        return Err(MetadataError::Empty);
    }
    let mut j: usize = 1;
    while j < names.len()
        invariant
            1 <= j <= names.len(),
            ns == Seq::new(names.len() as nat, |k: int| names[k]@),
            forall|a: int, b: int| 0 <= a < b < j ==> ns[a] != ns[b],
        decreases names.len() - j,
    {
        let mut i: usize = 0;
        while i < j
            invariant
                0 <= i <= j < names.len(),
                ns == Seq::new(names.len() as nat, |k: int| names[k]@),
                forall|a: int, b: int| 0 <= a < b < j ==> ns[a] != ns[b],
                forall|a: int| 0 <= a < i ==> ns[a] != ns[j as int],
            decreases j - i,
        {
            if names[i] == names[j] {
                assert(ns[i as int] == ns[j as int]);
                return Err(MetadataError::DuplicateName);
            }
            i = i + 1;
        }
        j = j + 1;
    }
    Ok(())
}

/// Accepts a discovered set of benchmarks: at least one, and no two with
/// the same name.
pub fn check_benchmarks(benchmarks: &Vec<Benchmark>) -> (r: Result<(), MetadataError>)
    ensures
        r == set_verdict(benchmark_names(benchmarks@)),
{
    let mut names: Vec<String> = Vec::new();
    for i in 0..benchmarks.len()
        invariant
            names.len() == i,
            forall|k: int| 0 <= k < i ==> names[k]@ == #[trigger] benchmarks[k].name@,
    {
        names.push(benchmarks[i].name.clone());
    }
    assert(Seq::new(names.len() as nat, |k: int| names[k]@) =~= benchmark_names(benchmarks@));
    check_names(&names)
}

/// Accepts a discovered set of runners: at least one, and no two with the
/// same name.
pub fn check_runners(runners: &Vec<Runner>) -> (r: Result<(), MetadataError>)
    ensures
        r == set_verdict(runner_names(runners@)),
{
    let mut names: Vec<String> = Vec::new();
    for i in 0..runners.len()
        invariant
            names.len() == i,
            forall|k: int| 0 <= k < i ==> names[k]@ == #[trigger] runners[k].name@,
    {
        names.push(runners[i].name.clone());
    }
    assert(Seq::new(names.len() as nat, |k: int| names[k]@) =~= runner_names(runners@));
    check_names(&names)
}

/// The views of a list of names.
pub open spec fn name_views(names: Seq<String>) -> Seq<Seq<char>> {
    names.map_values(|n: String| n@)
}

/// Whether `name` is among those asked for; when none are named, all are.
pub open spec fn is_wanted(wanted: Option<Vec<String>>, name: Seq<char>) -> bool {
    match wanted {
        Some(w) => name_views(w@).contains(name),
        None => true,
    }
}

fn has_name(names: &Vec<String>, name: &String) -> (r: bool)
    ensures
        r == name_views(names@).contains(name@),
{
    let mut i: usize = 0;
    while i < names.len()
        invariant
            i <= names.len(),
            forall|j: int| 0 <= j < i ==> (#[trigger] names[j])@ != name@,
        decreases names.len() - i,
    {
        if names[i] == *name {
            assert(name_views(names@)[i as int] == name@);
            return true;
        }
        i = i + 1;
    }
    assert forall|j: int| 0 <= j < names.len() implies name_views(names@)[j] != name@ by {
        assert(names[j]@ != name@);
    }
    false
}

/// The entries named in `wanted` (all of them when it is `None`), as
/// indices into `names` in name order; or, when some asked-for names belong
/// to no entry, those names.
pub fn select_by_name(names: &Vec<String>, wanted: &Option<Vec<String>>) -> (r: Result<Vec<usize>, Vec<String>>)
    ensures
        match r {
            Ok(idx) => {
                &&& forall|x: Seq<char>| #[trigger] is_wanted(*wanted, x) && wanted is Some ==> name_views(names@).contains(x)
                &&& forall|j: int| 0 <= j < idx.len() ==> #[trigger] idx[j] < names.len() && is_wanted(*wanted, names[idx[j] as int]@)
                &&& forall|k: int| 0 <= k < names.len() && is_wanted(*wanted, #[trigger] names[k]@) ==> exists|j: int| 0 <= j < idx.len() && idx[j] == k
                &&& forall|j: int, l: int| 0 <= j < l < idx.len() ==> idx[j] != idx[l]
                &&& forall|j: int, l: int| 0 <= j < l < idx.len() ==> !text_lt(names[idx[l] as int]@, names[idx[j] as int]@)
            },
            Err(unknown) => {
                &&& wanted is Some
                &&& unknown.len() > 0
                &&& forall|k: int| 0 <= k < unknown.len() ==> is_wanted(*wanted, #[trigger] unknown[k]@) && !name_views(names@).contains(unknown[k]@)
                &&& forall|x: Seq<char>| #[trigger] is_wanted(*wanted, x) && !name_views(names@).contains(x) ==> name_views(unknown@).contains(x)
            },
        },
{
    if let Some(w) = wanted {
        let mut unknown: Vec<String> = Vec::new();
        let mut i: usize = 0;
        while i < w.len()
            invariant
                i <= w.len(),
                *wanted == Some(*w),
                forall|k: int| 0 <= k < unknown.len() ==> is_wanted(*wanted, #[trigger] unknown[k]@) && !name_views(names@).contains(unknown[k]@),
                forall|a: int| 0 <= a < i && !name_views(names@).contains(#[trigger] w[a]@) ==> name_views(unknown@).contains(w[a]@),
            decreases w.len() - i,
        {
            assert(name_views(w@)[i as int] == w[i as int]@);
            if !has_name(names, &w[i]) {
                let ghost before = unknown@;
                unknown.push(w[i].clone());
                proof {
                    assert(name_views(unknown@)[before.len() as int] == w[i as int]@);
                    assert forall|a: int| 0 <= a < i + 1 && !name_views(names@).contains(#[trigger] w[a]@) implies name_views(unknown@).contains(w[a]@) by {
                        if a < i {
                            let b = choose|b: int| 0 <= b < name_views(before).len() && name_views(before)[b] == w[a]@;
                            assert(name_views(unknown@)[b] == name_views(before)[b]);
                        }
                    }
                }
            }
            i = i + 1;
        }
        if unknown.len() > 0 {
            proof {
                assert forall|x: Seq<char>| #[trigger] is_wanted(*wanted, x) && !name_views(names@).contains(x) implies name_views(unknown@).contains(x) by {
                    let a = choose|a: int| 0 <= a < name_views(w@).len() && name_views(w@)[a] == x;
                    assert(w[a]@ == x);
                }
            }
            return Err(unknown);
        }
        proof {
            assert forall|x: Seq<char>| #[trigger] is_wanted(*wanted, x) && wanted is Some implies name_views(names@).contains(x) by {
                let a = choose|a: int| 0 <= a < name_views(w@).len() && name_views(w@)[a] == x;
                assert(w[a]@ == x);
                if !name_views(names@).contains(x) {
                    assert(name_views(unknown@).contains(x));
                }
            }
        }
    }
    let mut chosen: Vec<usize> = Vec::new();
    let mut chosen_names: Vec<String> = Vec::new();
    let mut zeros: Vec<u128> = Vec::new();
    let mut k: usize = 0;
    while k < names.len()
        invariant
            k <= names.len(),
            chosen.len() == chosen_names.len() == zeros.len(),
            forall|c: int| 0 <= c < chosen.len() ==> #[trigger] chosen[c] < k && is_wanted(*wanted, names[chosen[c] as int]@),
            forall|c: int| 0 <= c < chosen.len() ==> (#[trigger] chosen_names[c])@ == names[chosen[c] as int]@,
            forall|c: int| 0 <= c < zeros.len() ==> #[trigger] zeros[c] == 0,
            forall|c: int, e: int| 0 <= c < e < chosen.len() ==> chosen[c] < chosen[e],
            forall|a: int| 0 <= a < k && is_wanted(*wanted, #[trigger] names[a]@) ==> exists|c: int| 0 <= c < chosen.len() && chosen[c] == a,
        decreases names.len() - k,
    {
        let take = match wanted {
            Some(w) => has_name(w, &names[k]),
            None => true,
        };
        if take {
            let ghost before = chosen@;
            chosen.push(k);
            chosen_names.push(names[k].clone());
            zeros.push(0);
            proof {
                assert forall|a: int| 0 <= a < k + 1 && is_wanted(*wanted, #[trigger] names[a]@) implies exists|c: int| 0 <= c < chosen.len() && chosen[c] == a by {
                    if a < k {
                        let c = choose|c: int| 0 <= c < before.len() && before[c] == a;
                        assert(chosen[c] == a);
                    } else {
                        assert(chosen[before.len() as int] == a);
                    }
                }
            }
        }
        k = k + 1;
    }
    let order = ranking(&zeros, &chosen_names);
    let ghost cn = chosen_names@.map_values(|s: String| s@);
    let mut idx: Vec<usize> = Vec::new();
    let mut j: usize = 0;
    while j < order.len()
        invariant
            j <= order.len() == chosen.len() == chosen_names.len() == zeros.len(),
            cn == chosen_names@.map_values(|s: String| s@),
            is_permutation(order@, chosen.len() as nat),
            idx.len() == j,
            forall|a: int| 0 <= a < j ==> #[trigger] idx[a] == chosen[order[a] as int],
        decreases order.len() - j,
    {
        idx.push(chosen[order[j]]);
        j = j + 1;
    }
    proof {
        assert forall|a: int| 0 <= a < names.len() && is_wanted(*wanted, #[trigger] names[a]@) implies exists|b: int| 0 <= b < idx.len() && idx[b] == a by {
            let c = choose|c: int| 0 <= c < chosen.len() && chosen[c] == a;
            lemma_permutation_covers(order@, chosen.len() as nat, c);
            let b = choose|b: int| 0 <= b < order.len() && order[b] == c;
            assert(idx[b] == a);
        }
        assert forall|a: int, b: int| 0 <= a < b < idx.len() implies idx[a] != idx[b] by {
            assert(order[a] != order[b]);
            if order[a] < order[b] {
                assert(chosen[order[a] as int] < chosen[order[b] as int]);
            } else {
                assert(chosen[order[b] as int] < chosen[order[a] as int]);
            }
        }
        assert forall|a: int, b: int| 0 <= a < b < idx.len() implies !text_lt(names[idx[b] as int]@, names[idx[a] as int]@) by {
            assert(ranks_before_or_with(zeros[order[a] as int], cn[order[a] as int], zeros[order[b] as int], cn[order[b] as int]));
            assert(cn[order[a] as int] == chosen_names[order[a] as int]@);
            assert(cn[order[b] as int] == chosen_names[order[b] as int]@);
        }
    }
    Ok(idx)
}

} // verus!
