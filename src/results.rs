//! The persisted form of the result matrix: the benchmarks and runners by
//! name, and each benchmark's samples by runner name. Runs are keyed
//! benchmark first, then runner.

use crate::model::{Benchmark, BenchmarkView, Runner, RunnerView};
use crate::run::{is_keyed_by_name, BenchmarkResults, Results, RunResult, RunnerResult};
use vstd::prelude::*;
use vstd::string::StringExecFns;

verus! {

/// The samples of one runner, under its name.
#[derive(Clone, Debug, PartialEq, Eq)]
pub struct NamedRunResult {
    pub runner: String,
    pub result: RunResult,
}

/// The samples of one benchmark, under its name.
#[derive(Clone, Debug, PartialEq, Eq)]
pub struct NamedRuns {
    pub benchmark: String,
    pub results: Vec<NamedRunResult>,
}

/// The result matrix as it is persisted: every benchmark and every runner
/// once, and the samples of each attempted pair by name.
#[derive(Clone, Debug, PartialEq, Eq)]
pub struct ResultsFormatted {
    pub benchmarks: Vec<Benchmark>,
    pub runners: Vec<Runner>,
    pub runs: Vec<NamedRuns>,
}

/// A matrix as values: for each benchmark, each attempted runner and its samples.
pub open spec fn matrix_view(m: Results) -> Seq<(BenchmarkView, Seq<(RunnerView, Seq<u64>)>)> {
    m.benchmarks@.map_values(|row: BenchmarkResults| row_view(row))
}

/// A row of a matrix as values.
pub open spec fn row_view(row: BenchmarkResults) -> (BenchmarkView, Seq<(RunnerView, Seq<u64>)>) {
    (row.benchmark@, row.runs@.map_values(|e: RunnerResult| (e.runner@, e.result.run_times@)))
}

/// `d` persists `m`: its benchmarks and runs follow the rows of `m`, and
/// its runners are those of `m`, each name once.
pub open spec fn is_document_of(d: ResultsFormatted, m: Results) -> bool {
    &&& d.benchmarks.len() == m.benchmarks.len()
    &&& d.runs.len() == m.benchmarks.len()
    &&& forall|i: int|
        0 <= i < m.benchmarks.len() ==> {
            &&& (#[trigger] d.benchmarks[i])@ == m.benchmarks[i].benchmark@
            &&& d.runs[i].benchmark@ == m.benchmarks[i].benchmark.name@
            &&& d.runs[i].results.len() == m.benchmarks[i].runs.len()
        }
    &&& forall|i: int, j: int|
        0 <= i < m.benchmarks.len() && 0 <= j < m.benchmarks[i].runs.len() ==> {
            &&& (#[trigger] d.runs[i].results[j]).runner@ == m.benchmarks[i].runs[j].runner.name@
            &&& d.runs[i].results[j].result.run_times@ == m.benchmarks[i].runs[j].result.run_times@
        }
    &&& forall|k: int, l: int| 0 <= k < l < d.runners.len() ==> d.runners[k].name@ != d.runners[l].name@
    &&& forall|i: int, j: int|
        0 <= i < m.benchmarks.len() && 0 <= j < m.benchmarks[i].runs.len() ==> lists_runner(
            d.runners@,
            (#[trigger] m.benchmarks[i].runs[j]).runner.name@,
        )
    &&& forall|k: int|
        0 <= k < d.runners.len() ==> attempted_before(m, (#[trigger] d.runners[k])@, m.benchmarks.len() as int, 0)
}

/// Some runner of `rs` is named `name`.
pub open spec fn lists_runner(rs: Seq<Runner>, name: Seq<char>) -> bool {
    exists|k: int| 0 <= k < rs.len() && (#[trigger] rs[k]).name@ == name
}

/// The runner `v` has an entry in `m` before entry `j` of row `i`.
pub open spec fn attempted_before(m: Results, v: RunnerView, i: int, j: int) -> bool {
    exists|a: int, b: int|
        0 <= a <= i && a < m.benchmarks.len() && 0 <= b < m.benchmarks[a].runs.len() && (a < i || b < j)
            && (#[trigger] m.benchmarks[a].runs[b]).runner@ == v
}

/// The index of the first runner named `name`, if there is one.
pub open spec fn runner_index(rs: Seq<Runner>, name: Seq<char>) -> Option<int> {
    if exists|k: int| 0 <= k < rs.len() && rs[k].name@ == name {
        Some(choose|k: int| 0 <= k < rs.len() && rs[k].name@ == name && forall|j: int| 0 <= j < k ==> (#[trigger] rs[j]).name@ != name)
    } else {
        None
    }
}

/// The index of the first runs entry of the benchmark named `name`, if there is one.
pub open spec fn runs_index(rs: Seq<NamedRuns>, name: Seq<char>) -> Option<int> {
    if exists|k: int| 0 <= k < rs.len() && rs[k].benchmark@ == name {
        Some(choose|k: int| 0 <= k < rs.len() && rs[k].benchmark@ == name && forall|j: int| 0 <= j < k ==> (#[trigger] rs[j]).benchmark@ != name)
    } else {
        None
    }
}

/// Every result of the document names a runner that it lists.
pub open spec fn runners_resolve(d: ResultsFormatted) -> bool {
    forall|i: int, j: int|
        0 <= i < d.runs.len() && 0 <= j < d.runs[i].results.len() ==> runner_index(
            d.runners@,
            (#[trigger] d.runs[i].results[j]).runner@,
        ) is Some
}

/// The matrix that a document holds: a row per listed benchmark, with the
/// samples of its runs entry, each under the runner of that name.
pub open spec fn document_matrix(d: ResultsFormatted) -> Seq<(BenchmarkView, Seq<(RunnerView, Seq<u64>)>)> {
    d.benchmarks@.map_values(|b: Benchmark| document_row(d, b))
}

/// The row of benchmark `b` in the matrix that a document holds.
pub open spec fn document_row(d: ResultsFormatted, b: Benchmark) -> (BenchmarkView, Seq<(RunnerView, Seq<u64>)>) {
    (
        b@,
        match runs_index(d.runs@, b.name@) {
            Some(k) => d.runs[k].results@.map_values(|e: NamedRunResult| document_entry(d, e)),
            None => Seq::empty(),
        },
    )
}

/// A result of a document, under the runner it names.
pub open spec fn document_entry(d: ResultsFormatted, e: NamedRunResult) -> (RunnerView, Seq<u64>) {
    (d.runners[runner_index(d.runners@, e.runner@)->0]@, e.result.run_times@)
}

proof fn lemma_runner_index(rs: Seq<Runner>, name: Seq<char>, k: int)
    requires
        0 <= k < rs.len(),
        rs[k].name@ == name,
    ensures
        runner_index(rs, name) is Some,
        0 <= runner_index(rs, name)->0 < rs.len(),
        rs[runner_index(rs, name)->0].name@ == name,
    decreases k,
{
    if exists|j: int| 0 <= j < k && rs[j].name@ == name {
        let j = choose|j: int| 0 <= j < k && rs[j].name@ == name;
        lemma_runner_index(rs, name, j);
    } else {
        assert(0 <= k < rs.len() && rs[k].name@ == name && forall|j: int| 0 <= j < k ==> (#[trigger] rs[j]).name@ != name);
    }
}

fn find_runner(rs: &Vec<Runner>, name: &String) -> (r: Option<usize>)
    ensures
        match r {
            Some(k) => runner_index(rs@, name@) == Some(k as int) && k < rs.len() && rs[k as int].name@ == name@,
            None => runner_index(rs@, name@) is None,
        },
{
    let mut k: usize = 0;
    while k < rs.len()
        invariant
            k <= rs.len(),
            forall|j: int| 0 <= j < k ==> (#[trigger] rs@[j]).name@ != name@,
        decreases rs.len() - k,
    {
        if rs[k].name == *name {
            proof {
                let c = choose|c: int| 0 <= c < rs.len() && rs@[c].name@ == name@ && forall|j: int| 0 <= j < c ==> (#[trigger] rs@[j]).name@ != name@;
                assert(0 <= k < rs.len() && rs@[k as int].name@ == name@ && forall|j: int| 0 <= j < k ==> (#[trigger] rs@[j]).name@ != name@);
                if c < k {
                    assert(rs@[c].name@ != name@);
                } else if c > k {
                    assert(rs@[k as int].name@ != name@);
                }
            }
            return Some(k);
        }
        k = k + 1;
    }
    None
}

fn find_runs(rs: &Vec<NamedRuns>, name: &String) -> (r: Option<usize>)
    ensures
        match r {
            Some(k) => runs_index(rs@, name@) == Some(k as int) && k < rs.len() && rs[k as int].benchmark@ == name@,
            None => runs_index(rs@, name@) is None,
        },
{
    let mut k: usize = 0;
    while k < rs.len()
        invariant
            k <= rs.len(),
            forall|j: int| 0 <= j < k ==> (#[trigger] rs@[j]).benchmark@ != name@,
        decreases rs.len() - k,
    {
        if rs[k].benchmark == *name {
            proof {
                let c = choose|c: int| 0 <= c < rs.len() && rs@[c].benchmark@ == name@ && forall|j: int| 0 <= j < c ==> (#[trigger] rs@[j]).benchmark@ != name@;
                assert(0 <= k < rs.len() && rs@[k as int].benchmark@ == name@ && forall|j: int| 0 <= j < k ==> (#[trigger] rs@[j]).benchmark@ != name@);
                if c < k {
                    assert(rs@[c].benchmark@ != name@);
                } else if c > k {
                    assert(rs@[k as int].benchmark@ != name@);
                }
            }
            return Some(k);
        }
        k = k + 1;
    }
    None
}

impl ResultsFormatted {
    /// Names identify: no two benchmarks, runners or runs entries share a
    /// name, nor two results of one entry.
    pub open spec fn wf(self) -> bool {
        &&& forall|i: int, j: int| 0 <= i < j < self.benchmarks.len() ==> self.benchmarks[i].name@ != self.benchmarks[j].name@
        &&& forall|i: int, j: int| 0 <= i < j < self.runners.len() ==> self.runners[i].name@ != self.runners[j].name@
        &&& forall|i: int, j: int| 0 <= i < j < self.runs.len() ==> self.runs[i].benchmark@ != self.runs[j].benchmark@
        &&& forall|i: int, j: int, k: int|
            0 <= i < self.runs.len() && 0 <= j < k < self.runs[i].results.len() ==> self.runs[i].results[j].runner@
                != self.runs[i].results[k].runner@
    }
}

/// The document of a matrix whose names identify is well formed.
proof fn lemma_document_wf(d: ResultsFormatted, m: Results)
    requires
        is_keyed_by_name(m),
        is_document_of(d, m),
    ensures
        d.wf(),
{
    assert forall|i: int, j: int| 0 <= i < j < d.benchmarks.len() implies d.benchmarks[i].name@ != d.benchmarks[j].name@ by {
        assert(d.benchmarks[i]@ == m.benchmarks[i].benchmark@);
        assert(d.benchmarks[j]@ == m.benchmarks[j].benchmark@);
    }
    assert forall|i: int, j: int| 0 <= i < j < d.runs.len() implies d.runs[i].benchmark@ != d.runs[j].benchmark@ by {
        assert(d.benchmarks[i]@ == m.benchmarks[i].benchmark@);
        assert(d.benchmarks[j]@ == m.benchmarks[j].benchmark@);
    }
    assert forall|i: int, j: int, k: int|
        0 <= i < d.runs.len() && 0 <= j < k < d.runs[i].results.len() implies d.runs[i].results[j].runner@
            != d.runs[i].results[k].runner@ by {
        assert(d.benchmarks[i]@ == m.benchmarks[i].benchmark@);
        assert(d.runs[i].results[j].runner@ == m.benchmarks[i].runs[j].runner.name@);
        assert(d.runs[i].results[k].runner@ == m.benchmarks[i].runs[k].runner.name@);
    }
}

impl ResultsFormatted {
    /// The persisted form of a matrix.
    pub fn new(results: &Results) -> (r: Self)
        ensures
            is_document_of(r, *results),
            is_keyed_by_name(*results) ==> r.wf(),
    {
        let n = results.benchmarks.len();
        let mut benchmarks: Vec<Benchmark> = Vec::new();
        let mut runners: Vec<Runner> = Vec::new();
        let mut runs: Vec<NamedRuns> = Vec::new();
        let mut i: usize = 0;
        while i < n
            invariant
                i <= n == results.benchmarks.len(),
                benchmarks.len() == i,
                runs.len() == i,
                forall|a: int|
                    0 <= a < i ==> {
                        &&& (#[trigger] benchmarks[a])@ == results.benchmarks[a].benchmark@
                        &&& runs[a].benchmark@ == results.benchmarks[a].benchmark.name@
                        &&& runs[a].results.len() == results.benchmarks[a].runs.len()
                    },
                forall|a: int, b: int|
                    0 <= a < i && 0 <= b < results.benchmarks[a].runs.len() ==> {
                        &&& (#[trigger] runs[a].results[b]).runner@ == results.benchmarks[a].runs[b].runner.name@
                        &&& runs[a].results[b].result.run_times@ == results.benchmarks[a].runs[b].result.run_times@
                    },
                forall|k: int, l: int| 0 <= k < l < runners.len() ==> runners[k].name@ != runners[l].name@,
                forall|a: int, b: int|
                    0 <= a < i && 0 <= b < results.benchmarks[a].runs.len() ==> lists_runner(
                        runners@,
                        (#[trigger] results.benchmarks[a].runs[b]).runner.name@,
                    ),
                forall|k: int| 0 <= k < runners.len() ==> attempted_before(*results, (#[trigger] runners[k])@, i as int, 0),
            decreases n - i,
        {
            let row = &results.benchmarks[i];
            let mut named: Vec<NamedRunResult> = Vec::new();
            let ghost runs_before = runs@;
            for j in 0..row.runs.len()
                invariant
                    n == results.benchmarks.len(),
                    i < n,
                    *row == results.benchmarks[i as int],
                    named.len() == j,
                    forall|b: int|
                        0 <= b < j ==> {
                            &&& (#[trigger] named[b]).runner@ == row.runs[b].runner.name@
                            &&& named[b].result.run_times@ == row.runs[b].result.run_times@
                        },
                    forall|k: int, l: int| 0 <= k < l < runners.len() ==> runners[k].name@ != runners[l].name@,
                    forall|a: int, b: int|
                        0 <= a < i && 0 <= b < results.benchmarks[a].runs.len() ==> lists_runner(
                            runners@,
                            (#[trigger] results.benchmarks[a].runs[b]).runner.name@,
                        ),
                    forall|b: int| 0 <= b < j ==> lists_runner(runners@, (#[trigger] row.runs[b]).runner.name@),
                    forall|k: int| 0 <= k < runners.len() ==> attempted_before(*results, (#[trigger] runners[k])@, i as int, j as int),
            {
                let e = &row.runs[j];
                named.push(NamedRunResult { runner: e.runner.name.clone(), result: e.result.duplicate() });
                assert(results.benchmarks[i as int].runs[j as int] == *e);
                let ghost before = runners@;
                match find_runner(&runners, &e.runner.name) {
                    Some(k) => {
                        assert(runners[k as int].name@ == e.runner.name@);
                    },
                    None => {
                        runners.push(e.runner.duplicate());
                        assert(runners[before.len() as int].name@ == e.runner.name@);
                    },
                }
                proof {
                    assert forall|a: int, b: int|
                        0 <= a < i && 0 <= b < results.benchmarks[a].runs.len() implies lists_runner(
                            runners@,
                            (#[trigger] results.benchmarks[a].runs[b]).runner.name@,
                        ) by {
                        assert(lists_runner(before, results.benchmarks[a].runs[b].runner.name@));
                        let k = choose|k: int| 0 <= k < before.len() && (#[trigger] before[k]).name@ == results.benchmarks[a].runs[b].runner.name@;
                        assert(runners[k] == before[k]);
                    }
                    assert forall|b: int| 0 <= b < j + 1 implies lists_runner(runners@, (#[trigger] row.runs[b]).runner.name@) by {
                        if b < j {
                            assert(lists_runner(before, row.runs[b].runner.name@));
                            let k = choose|k: int| 0 <= k < before.len() && (#[trigger] before[k]).name@ == row.runs[b].runner.name@;
                            assert(runners[k] == before[k]);
                        }
                    }
                    assert forall|k: int| 0 <= k < runners.len() implies attempted_before(*results, (#[trigger] runners[k])@, i as int, j + 1) by {
                        if k < before.len() {
                            assert(runners[k] == before[k]);
                            assert(attempted_before(*results, before[k]@, i as int, j as int));
                            let (a, b) = choose|a: int, b: int|
                                0 <= a <= i && a < results.benchmarks.len() && 0 <= b < results.benchmarks[a].runs.len() && (a < i || b < j)
                                    && (#[trigger] results.benchmarks[a].runs[b]).runner@ == before[k]@;
                            assert(results.benchmarks[a].runs[b].runner@ == runners[k]@);
                        } else {
                            assert(results.benchmarks[i as int].runs[j as int].runner@ == runners[k]@);
                        }
                    }
                }
            }
            let ghost old_benchmarks = benchmarks@;
            let ghost old_runs = runs@;
            benchmarks.push(row.benchmark.duplicate());
            runs.push(NamedRuns { benchmark: row.benchmark.name.clone(), results: named });
            proof {
                assert forall|a: int| 0 <= a < i + 1 implies {
                    &&& (#[trigger] benchmarks[a])@ == results.benchmarks[a].benchmark@
                    &&& runs[a].benchmark@ == results.benchmarks[a].benchmark.name@
                    &&& runs[a].results.len() == results.benchmarks[a].runs.len()
                } by {
                    if a < i {
                        assert(benchmarks[a] == old_benchmarks[a]);
                        assert(runs[a] == old_runs[a]);
                    }
                }
                assert forall|a: int, b: int|
                    0 <= a < i + 1 && 0 <= b < results.benchmarks[a].runs.len() implies {
                        &&& (#[trigger] runs[a].results[b]).runner@ == results.benchmarks[a].runs[b].runner.name@
                        &&& runs[a].results[b].result.run_times@ == results.benchmarks[a].runs[b].result.run_times@
                    } by {
                    if a < i {
                        assert(runs[a] == old_runs[a]);
                    } else {
                        assert(runs[a].results[b] == named[b]);
                    }
                }
                assert forall|k: int| 0 <= k < runners.len() implies attempted_before(*results, (#[trigger] runners[k])@, i + 1, 0) by {
                    let (a, b) = choose|a: int, b: int|
                        0 <= a <= i && a < results.benchmarks.len() && 0 <= b < results.benchmarks[a].runs.len() && (a < i || b < row.runs.len())
                            && (#[trigger] results.benchmarks[a].runs[b]).runner@ == runners[k]@;
                    assert(results.benchmarks[a].runs[b].runner@ == runners[k]@);
                }
                assert forall|a: int, b: int|
                    0 <= a < i + 1 && 0 <= b < results.benchmarks[a].runs.len() implies lists_runner(
                        runners@,
                        (#[trigger] results.benchmarks[a].runs[b]).runner.name@,
                    ) by {
                    if a == i {
                        assert(lists_runner(runners@, row.runs[b].runner.name@));
                    }
                }
            }
            i = i + 1;
        }
        let r = ResultsFormatted { benchmarks, runners, runs };
        proof {
            if is_keyed_by_name(*results) {
                lemma_document_wf(r, *results);
            }
        }
        r
    }
}

impl ResultsFormatted {
    fn row_of(&self, b: &Benchmark) -> (r: BenchmarkResults)
        requires
            runners_resolve(*self),
        ensures
            row_view(r) == document_row(*self, *b),
    {
        let mut entries: Vec<RunnerResult> = Vec::new();
        match find_runs(&self.runs, &b.name) {
            Some(k) => {
                let named = &self.runs[k].results;
                let mut j: usize = 0;
                while j < named.len()
                    invariant
                        k < self.runs.len(),
                        *named == self.runs[k as int].results,
                        runners_resolve(*self),
                        j <= named.len(),
                        entries.len() == j,
                        forall|c: int|
                            0 <= c < j ==> ((#[trigger] entries[c]).runner@, entries[c].result.run_times@)
                                == document_entry(*self, named[c]),
                    decreases named.len() - j,
                {
                    assert(runner_index(self.runners@, self.runs[k as int].results[j as int].runner@) is Some);
                    let x = find_runner(&self.runners, &named[j].runner).unwrap();
                    entries.push(
                        RunnerResult { runner: self.runners[x].duplicate(), result: named[j].result.duplicate() },
                    );
                    j = j + 1;
                }
                assert(entries@.map_values(|e: RunnerResult| (e.runner@, e.result.run_times@))
                    =~= named@.map_values(|e: NamedRunResult| document_entry(*self, e)));
            },
            None => {
                assert(entries@.map_values(|e: RunnerResult| (e.runner@, e.result.run_times@))
                    =~= Seq::<(RunnerView, Seq<u64>)>::empty());
            },
        }
        BenchmarkResults { benchmark: b.duplicate(), runs: entries }
    }

    /// The matrix that this document holds; `None` when a result names a
    /// runner that the document does not list.
    pub fn results(&self) -> (r: Option<Results>)
        ensures
            r is Some <==> runners_resolve(*self),
            r is Some ==> matrix_view(r->0) == document_matrix(*self),
    {
        let mut i: usize = 0;
        while i < self.runs.len()
            invariant
                i <= self.runs.len(),
                forall|a: int, b: int|
                    0 <= a < i && 0 <= b < self.runs[a].results.len() ==> runner_index(
                        self.runners@,
                        (#[trigger] self.runs[a].results[b]).runner@,
                    ) is Some,
            decreases self.runs.len() - i,
        {
            let mut j: usize = 0;
            while j < self.runs[i].results.len()
                invariant
                    i < self.runs.len(),
                    j <= self.runs[i as int].results.len(),
                    forall|a: int, b: int|
                        0 <= a < i && 0 <= b < self.runs[a].results.len() ==> runner_index(
                            self.runners@,
                            (#[trigger] self.runs[a].results[b]).runner@,
                        ) is Some,
                    forall|b: int|
                        0 <= b < j ==> runner_index(self.runners@, (#[trigger] self.runs[i as int].results[b]).runner@) is Some,
                decreases self.runs[i as int].results.len() - j,
            {
                if find_runner(&self.runners, &self.runs[i].results[j].runner).is_none() {
                    return None;
                }
                j = j + 1;
            }
            i = i + 1;
        }
        let mut rows: Vec<BenchmarkResults> = Vec::new();
        let mut i: usize = 0;
        while i < self.benchmarks.len()
            invariant
                i <= self.benchmarks.len(),
                runners_resolve(*self),
                rows.len() == i,
                forall|a: int| 0 <= a < i ==> row_view(#[trigger] rows[a]) == document_row(*self, self.benchmarks[a]),
            decreases self.benchmarks.len() - i,
        {
            let row = self.row_of(&self.benchmarks[i]);
            rows.push(row);
            i = i + 1;
        }
        let r = Results { benchmarks: rows };
        assert(matrix_view(r) =~= document_matrix(*self));
        Some(r)
    }
}

proof fn lemma_row_round_trip(m: Results, d: ResultsFormatted, i: int)
    requires
        is_keyed_by_name(m),
        is_document_of(d, m),
        0 <= i < m.benchmarks.len(),
    ensures
        document_row(d, d.benchmarks[i]) == row_view(m.benchmarks[i]),
{
    let name = d.benchmarks[i].name@;
    assert(d.benchmarks[i]@ == m.benchmarks[i].benchmark@);
    assert(d.runs[i].benchmark@ == name);
    let c = runs_index(d.runs@, name)->0;
    assert(runs_index(d.runs@, name) == Some(i)) by {
        assert(0 <= i < d.runs.len() && d.runs[i].benchmark@ == name);
        assert forall|j: int| 0 <= j < i implies (#[trigger] d.runs@[j]).benchmark@ != name by {
            assert(d.benchmarks[j]@ == m.benchmarks[j].benchmark@);
            assert(d.runs[j].benchmark@ == m.benchmarks[j].benchmark.name@);
        }
        if c < i {
            assert(d.benchmarks[c]@ == m.benchmarks[c].benchmark@);
            assert(d.runs[c].benchmark@ == m.benchmarks[c].benchmark.name@);
        } else if c > i {
            assert(d.runs@[i].benchmark@ != name);
        }
    }
    let row = m.benchmarks[i];
    assert forall|j: int| 0 <= j < row.runs.len() implies document_entry(d, #[trigger] d.runs[i].results[j])
        == (row.runs[j].runner@, row.runs[j].result.run_times@) by {
        let n = row.runs[j].runner.name@;
        assert(d.runs[i].results[j].runner@ == n);
        assert(lists_runner(d.runners@, m.benchmarks[i].runs[j].runner.name@));
        let k0 = choose|k0: int| 0 <= k0 < d.runners.len() && (#[trigger] d.runners[k0]).name@ == n;
        lemma_runner_index(d.runners@, n, k0);
        let k = runner_index(d.runners@, n)->0;
        assert(0 <= k < d.runners.len() && d.runners[k].name@ == n);
        assert(attempted_before(m, d.runners[k]@, m.benchmarks.len() as int, 0));
        let (a, b) = choose|a: int, b: int|
            0 <= a <= m.benchmarks.len() && a < m.benchmarks.len() && 0 <= b < m.benchmarks[a].runs.len()
                && (a < m.benchmarks.len() || b < 0) && (#[trigger] m.benchmarks[a].runs[b]).runner@
                == d.runners[k]@;
        assert(m.benchmarks[a].runs[b].runner.name@ == n);
    }
    assert(d.runs[i].results@.map_values(|e: NamedRunResult| document_entry(d, e))
        =~= row.runs@.map_values(|e: RunnerResult| (e.runner@, e.result.run_times@)));
}

/// Persisting loses nothing: the document of a matrix whose names identify
/// its benchmarks and runners holds that same matrix.
pub proof fn lemma_round_trip(m: Results, d: ResultsFormatted)
    requires
        is_keyed_by_name(m),
        is_document_of(d, m),
    ensures
        runners_resolve(d),
        document_matrix(d) == matrix_view(m),
{
    assert forall|i: int, j: int|
        0 <= i < d.runs.len() && 0 <= j < d.runs[i].results.len() implies runner_index(
            d.runners@,
            (#[trigger] d.runs[i].results[j]).runner@,
        ) is Some by {
        assert(d.benchmarks[i]@ == m.benchmarks[i].benchmark@);
        assert(d.runs[i].results[j].runner@ == m.benchmarks[i].runs[j].runner.name@);
        assert(lists_runner(d.runners@, m.benchmarks[i].runs[j].runner.name@));
    }
    assert forall|i: int| 0 <= i < m.benchmarks.len() implies document_row(d, #[trigger] d.benchmarks[i])
        == row_view(m.benchmarks[i]) by {
        lemma_row_round_trip(m, d, i);
    }
    assert(document_matrix(d) =~= matrix_view(m));
}

/// The name of a results file: the one asked for, else the time of writing
/// followed by `.evm-bench.results.json`.
pub fn results_file_name(requested: Option<String>, timestamp: &str) -> (r: String)
    ensures
        match requested {
            Some(n) => r@ == n@,
            None => r@ == timestamp@ + ".evm-bench.results.json"@,
        },
{
    match requested {
        Some(n) => n,
        None => {
            let mut name = timestamp.to_string();
            name.append(".evm-bench.results.json");
            name
        },
    }
}

} // verus!
