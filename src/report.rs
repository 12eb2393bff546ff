//! The comparison report: each runner's aggregate time, the runners ranked
//! by it, and the table of averages that shows them.

use crate::order::{is_permutation, is_ranked, lemma_permutation_covers, ranking, ranks_before_or_with};
use crate::results::{NamedRunResult, NamedRuns, ResultsFormatted};
use crate::text::{decimal_text, padded_decimal_text, push_char, push_decimal, push_padded_decimal};
use vstd::arithmetic::div_mod::{
    lemma_basic_div, lemma_div_by_multiple, lemma_div_is_ordered,
    lemma_div_is_ordered_by_denominator, lemma_fundamental_div_mod, lemma_hoist_over_denominator,
};
use vstd::prelude::*;

verus! {

/// The longest duration there is, in nanoseconds: 2^64 - 1 seconds and
/// 999,999,999 nanoseconds.
pub const MAX_TOTAL_NANOS: u128 = 18_446_744_073_709_551_615_999_999_999;

/// The sum of the samples.
pub open spec fn samples_sum(t: Seq<u64>) -> nat
    decreases t.len(),
{
    if t.len() == 0 {
        0
    } else {
        samples_sum(t.drop_last()) + t.last() as nat
    }
}

/// The mean of a non-empty sequence of samples, rounded to the nearest
/// nanosecond, halves up.
pub open spec fn mean_nanos(t: Seq<u64>) -> nat {
    ((2 * samples_sum(t) + t.len()) / (2 * t.len())) as nat
}

/// `w` whole units and `f` thousandths (`t = 1000 w + f`), to three
/// decimal places, then the unit's symbol.
pub open spec fn thousandths_text(t: nat, unit: Seq<char>) -> Seq<char> {
    decimal_text(t / 1000) + seq!['.'] + padded_decimal_text(t % 1000, 3) + unit
}

/// The unit in which a duration of `n` nanoseconds shows: seconds from one
/// second up, then milliseconds, microseconds and nanoseconds.
pub open spec fn unit_nanos(n: nat) -> nat {
    if n >= 1_000_000_000 {
        1_000_000_000
    } else if n >= 1_000_000 {
        1_000_000
    } else if n >= 1_000 {
        1_000
    } else {
        1
    }
}

pub open spec fn unit_symbol(n: nat) -> Seq<char> {
    if n >= 1_000_000_000 {
        seq!['s']
    } else if n >= 1_000_000 {
        seq!['m', 's']
    } else if n >= 1_000 {
        seq!['\u{b5}', 's']
    } else {
        seq!['n', 's']
    }
}

/// A duration of `n` nanoseconds as the report shows it: in its unit, to
/// three decimal places rounded half up, as in `41.215ms` or `2.674s`.
pub open spec fn duration_text(n: nat) -> Seq<char> {
    let u = unit_nanos(n);
    thousandths_text((1000 * n + u / 2) / u, unit_symbol(n))
}

/// `a / m` in thousandths, rounded half up.
pub open spec fn relative_thousandths(a: nat, m: nat) -> nat {
    ((2000 * a + m) / (2 * m)) as nat
}

/// The multiplier of an aggregate time `a` against the least one `m`, as
/// in `1.243x`. With `m` zero, a zero time is the anchor itself and any
/// other is infinitely slower.
pub open spec fn relative_text(a: nat, m: nat) -> Seq<char> {
    if m == 0 {
        if a == 0 {
            thousandths_text(1000, seq!['x'])
        } else {
            seq!['i', 'n', 'f', 'x']
        }
    } else {
        thousandths_text(relative_thousandths(a, m), seq!['x'])
    }
}

/// The least of `t`, zero when it is empty.
pub open spec fn least(t: Seq<nat>) -> nat
    decreases t.len(),
{
    if t.len() == 0 {
        0
    } else if t.len() == 1 {
        t[0]
    } else {
        let m = least(t.drop_last());
        if t.last() < m {
            t.last()
        } else {
            m
        }
    }
}

proof fn lemma_least(t: Seq<nat>)
    ensures
        forall|k: int| 0 <= k < t.len() ==> least(t) <= #[trigger] t[k],
    decreases t.len(),
{
    if t.len() > 1 {
        lemma_least(t.drop_last());
        assert forall|k: int| 0 <= k < t.len() implies least(t) <= #[trigger] t[k] by {
            if k < t.len() - 1 {
                assert(t.drop_last()[k] == t[k]);
            }
        }
    }
}

/// The relative row is anchored at the fastest runner: a runner whose
/// aggregate time is the least shows `1.000x`, and no runner shows less.
pub proof fn lemma_relative_anchor(totals: Seq<nat>)
    ensures
        forall|k: int|
            0 <= k < totals.len() && #[trigger] totals[k] == least(totals) ==> relative_text(
                totals[k],
                least(totals),
            ) == thousandths_text(1000, seq!['x']),
        forall|k: int|
            0 <= k < totals.len() && least(totals) > 0 ==> relative_thousandths(
                #[trigger] totals[k],
                least(totals),
            ) >= 1000,
{
    let m = least(totals);
    lemma_least(totals);
    if m > 0 {
        let d = (2 * m) as nat;
        lemma_hoist_over_denominator(m as int, 1000, d);
        lemma_basic_div(m as int, d as int);
        assert(relative_thousandths(m, m) == 1000);
        assert forall|k: int| 0 <= k < totals.len() implies relative_thousandths(#[trigger] totals[k], m) >= 1000 by {
            lemma_div_is_ordered((2000 * m + m) as int, (2000 * totals[k] + m) as int, d as int);
        }
    }
}

fn push_thousandths(s: &mut String, t: u128)
    ensures
        final(s)@ == old(s)@ + decimal_text((t / 1000) as nat) + seq!['.'] + padded_decimal_text(
            (t % 1000) as nat,
            3,
        ),
{
    push_decimal(s, t / 1000);
    push_char(s, '.');
    push_padded_decimal(s, t % 1000, 3);
    assert(s@ =~= old(s)@ + decimal_text((t / 1000) as nat) + seq!['.'] + padded_decimal_text(
        (t % 1000) as nat,
        3,
    ));
}

/// A duration as the report shows it.
pub fn duration_string(n: u128) -> (r: String)
    requires
        n <= MAX_TOTAL_NANOS,
    ensures
        r@ == duration_text(n as nat),
{
    let u: u128 = if n >= 1_000_000_000 {
        1_000_000_000
    } else if n >= 1_000_000 {
        1_000_000
    } else if n >= 1_000 {
        1_000
    } else {
        1
    };
    let q = n / u;
    let rem = n % u;
    assert(q <= n) by {
        lemma_div_is_ordered_by_denominator(n as int, 1, u as int);
    }
    let t = q * 1000 + (rem * 1000 + u / 2) / u;
    proof {
        lemma_fundamental_div_mod(n as int, u as int);
        lemma_hoist_over_denominator((rem * 1000 + u / 2) as int, 1000 * q, u as nat);
        assert(1000 * n + u / 2 == rem * 1000 + u / 2 + (1000 * q) * u) by (nonlinear_arith)
            requires
                n == u * q + rem,
        ;
    }
    let mut s = String::new();
    push_thousandths(&mut s, t);
    if n >= 1_000_000_000 {
        push_char(&mut s, 's');
    } else if n >= 1_000_000 {
        push_char(&mut s, 'm');
        push_char(&mut s, 's');
    } else if n >= 1_000 {
        push_char(&mut s, '\u{b5}');
        push_char(&mut s, 's');
    } else {
        push_char(&mut s, 'n');
        push_char(&mut s, 's');
    }
    assert(s@ =~= duration_text(n as nat));
    s
}

/// The multiplier of an aggregate time against the least one, as the
/// report shows it.
pub fn relative_string(a: u128, m: u128) -> (r: String)
    requires
        a <= MAX_TOTAL_NANOS,
        m <= MAX_TOTAL_NANOS,
    ensures
        r@ == relative_text(a as nat, m as nat),
{
    let mut s = String::new();
    if m == 0 {
        if a == 0 {
            push_thousandths(&mut s, 1000);
            push_char(&mut s, 'x');
        } else {
            push_char(&mut s, 'i');
            push_char(&mut s, 'n');
            push_char(&mut s, 'f');
            push_char(&mut s, 'x');
        }
    } else {
        let q = a / m;
        let rem = a % m;
        let t = q * 1000 + (rem * 2000 + m) / (2 * m);
        proof {
            lemma_fundamental_div_mod(a as int, m as int);
            lemma_hoist_over_denominator((rem * 2000 + m) as int, 1000 * q, (2 * m) as nat);
            assert(2000 * a + m == rem * 2000 + m + (1000 * q) * (2 * m)) by (nonlinear_arith)
                requires
                    a == m * q + rem,
            ;
            assert(q <= a) by {
                lemma_div_is_ordered_by_denominator(a as int, 1, m as int);
            }
        }
        push_thousandths(&mut s, t);
        push_char(&mut s, 'x');
    }
    assert(s@ =~= relative_text(a as nat, m as nat));
    s
}

/// The index of the first result of the runner named `name`, if there is one.
pub open spec fn result_index(rs: Seq<NamedRunResult>, name: Seq<char>) -> Option<int> {
    if exists|k: int| 0 <= k < rs.len() && rs[k].runner@ == name {
        Some(choose|k: int| 0 <= k < rs.len() && rs[k].runner@ == name && forall|j: int| 0 <= j < k ==> (#[trigger] rs[j]).runner@ != name)
    } else {
        None
    }
}

/// The mean time of a runner on a benchmark, when it has samples there.
pub open spec fn cell_mean(e: NamedRuns, runner: Seq<char>) -> Option<nat> {
    match result_index(e.results@, runner) {
        Some(k) => if e.results[k].result.run_times.len() > 0 {
            Some(mean_nanos(e.results[k].result.run_times@))
        } else {
            None
        },
        None => None,
    }
}

/// What a benchmark adds to a runner's aggregate time: its mean, or zero
/// without samples.
pub open spec fn contribution(e: NamedRuns, runner: Seq<char>) -> nat {
    match cell_mean(e, runner) {
        Some(v) => v,
        None => 0,
    }
}

/// A runner's aggregate time: the sum over the benchmarks of its means,
/// those without samples adding zero.
pub open spec fn runner_total(runs: Seq<NamedRuns>, runner: Seq<char>) -> nat
    decreases runs.len(),
{
    if runs.len() == 0 {
        0
    } else {
        runner_total(runs.drop_last(), runner) + contribution(runs.last(), runner)
    }
}

/// A benchmark without samples of a runner adds exactly zero to its
/// aggregate time: leaving it out changes nothing.
pub proof fn lemma_zero_fill(runs: Seq<NamedRuns>, runner: Seq<char>, k: int)
    requires
        0 <= k < runs.len(),
        cell_mean(runs[k], runner) is None,
    ensures
        runner_total(runs, runner) == runner_total(runs.remove(k), runner),
    decreases runs.len(),
{
    if k == runs.len() - 1 {
        assert(runs.remove(k) =~= runs.drop_last());
    } else {
        lemma_zero_fill(runs.drop_last(), runner, k);
        assert(runs.remove(k).drop_last() =~= runs.drop_last().remove(k));
        assert(runs.remove(k).last() == runs.last());
    }
}

proof fn lemma_total_prefix(runs: Seq<NamedRuns>, runner: Seq<char>, i: int)
    requires
        0 <= i <= runs.len(),
    ensures
        runner_total(runs.subrange(0, i), runner) <= runner_total(runs, runner),
    decreases runs.len() - i,
{
    if i < runs.len() {
        lemma_total_prefix(runs, runner, i + 1);
        assert(runs.subrange(0, i + 1).drop_last() =~= runs.subrange(0, i));
    } else {
        assert(runs.subrange(0, i) =~= runs);
    }
}

/// The mean of non-empty samples, rounded half up.
pub fn mean_of(t: &Vec<u64>) -> (r: u128)
    requires
        t.len() > 0,
    ensures
        r == mean_nanos(t@),
        r < 0x4_0000_0000_0000_0000,
{
    let n = t.len();
    let mut sum: u128 = 0;
    let mut i: usize = 0;
    while i < n
        invariant
            i <= n == t.len(),
            sum == samples_sum(t@.subrange(0, i as int)),
            sum <= i * (u64::MAX as int),
        decreases n - i,
    {
        assert(t@.subrange(0, i + 1).drop_last() =~= t@.subrange(0, i as int));
        assert((i + 1) * (u64::MAX as int) == i * (u64::MAX as int) + u64::MAX) by (nonlinear_arith);
        assert(i * (u64::MAX as int) < 0x1_0000_0000_0000_0000_0000_0000_0000_0000 - u64::MAX) by (nonlinear_arith)
            requires
                i < n,
                n <= usize::MAX,
                usize::MAX <= u64::MAX,
        ;
        sum = sum + t[i] as u128;
        i = i + 1;
    }
    assert(t@.subrange(0, n as int) =~= t@);
    let len = n as u128;
    let q = sum / len;
    let rem = sum % len;
    let extra = (2 * rem + len) / (2 * len);
    proof {
        lemma_fundamental_div_mod(sum as int, len as int);
        lemma_hoist_over_denominator((2 * rem + len) as int, q as int, (2 * len) as nat);
        assert(2 * sum + len == 2 * rem + len + q * (2 * len)) by (nonlinear_arith)
            requires
                sum == len * q + rem,
        ;
        lemma_div_is_ordered(sum as int, (len * (u64::MAX as int)) as int, len as int);
        lemma_div_by_multiple(u64::MAX as int, len as int);
        assert(len * (u64::MAX as int) == (u64::MAX as int) * len) by (nonlinear_arith);
        lemma_div_is_ordered_by_denominator((2 * rem + len) as int, 1, (2 * len) as int);
    }
    q + extra
}

/// The index of the first result of the runner named `name`, if there is one.
fn find_result(rs: &Vec<NamedRunResult>, name: &String) -> (r: Option<usize>)
    ensures
        match r {
            Some(k) => result_index(rs@, name@) == Some(k as int) && k < rs.len() && rs[k as int].runner@ == name@,
            None => result_index(rs@, name@) is None,
        },
{
    let mut k: usize = 0;
    while k < rs.len()
        invariant
            k <= rs.len(),
            forall|j: int| 0 <= j < k ==> (#[trigger] rs@[j]).runner@ != name@,
        decreases rs.len() - k,
    {
        if rs[k].runner == *name {
            proof {
                let c = choose|c: int| 0 <= c < rs.len() && rs@[c].runner@ == name@ && forall|j: int| 0 <= j < c ==> (#[trigger] rs@[j]).runner@ != name@;
                assert(0 <= k < rs.len() && rs@[k as int].runner@ == name@ && forall|j: int| 0 <= j < k ==> (#[trigger] rs@[j]).runner@ != name@);
                if c < k {
                    assert(rs@[c].runner@ != name@);
                } else if c > k {
                    assert(rs@[k as int].runner@ != name@);
                }
            }
            return Some(k);
        }
        k = k + 1;
    }
    None
}

/// The mean time of a runner on a benchmark, when it has samples there.
pub fn cell_mean_of(e: &NamedRuns, runner: &String) -> (r: Option<u128>)
    ensures
        match r {
            Some(v) => cell_mean(*e, runner@) == Some(v as nat) && v < 0x4_0000_0000_0000_0000,
            None => cell_mean(*e, runner@) is None,
        },
{
    match find_result(&e.results, runner) {
        Some(k) => {
            if e.results[k].result.run_times.len() > 0 {
                Some(mean_of(&e.results[k].result.run_times))
            } else {
                None
            }
        },
        None => None,
    }
}

/// A runner's aggregate time over `runs`; `None` when it exceeds the
/// longest duration there is.
pub fn total_of(runs: &Vec<NamedRuns>, runner: &String) -> (r: Option<u128>)
    ensures
        r is Some <==> runner_total(runs@, runner@) <= MAX_TOTAL_NANOS,
        r is Some ==> r->0 == runner_total(runs@, runner@),
{
    let mut total: u128 = 0;
    let mut i: usize = 0;
    while i < runs.len()
        invariant
            i <= runs.len(),
            total == runner_total(runs@.subrange(0, i as int), runner@),
            total <= MAX_TOTAL_NANOS,
        decreases runs.len() - i,
    {
        assert(runs@.subrange(0, i + 1).drop_last() =~= runs@.subrange(0, i as int));
        match cell_mean_of(&runs[i], runner) {
            Some(v) => {
                total = total + v;
            },
            None => {},
        }
        i = i + 1;
        if total > MAX_TOTAL_NANOS {
            proof {
                lemma_total_prefix(runs@, runner@, i as int);
            }
            return None;
        }
    }
    assert(runs@.subrange(0, i as int) =~= runs@);
    Some(total)
}

/// The comparison table of a document, and what it rests on.
#[derive(Clone, Debug, PartialEq, Eq)]
pub struct Report {
    /// Each runner's aggregate time, in the document's order of runners.
    pub totals: Vec<u128>,
    /// The runners, by index, from fastest to slowest; ties by name.
    pub runner_order: Vec<usize>,
    /// The runs entries, by index, by benchmark name.
    pub benchmark_order: Vec<usize>,
    /// An empty corner, then the runner names in rank order.
    pub header: Vec<String>,
    /// The sum row, the relative row, then a row per benchmark.
    pub rows: Vec<Vec<String>>,
    /// For each benchmark row and ranked runner: the document holds no
    /// entry at all for the pair.
    pub missing: Vec<Vec<bool>>,
}

/// The runner names of a document.
pub open spec fn runner_names_of(d: ResultsFormatted) -> Seq<Seq<char>> {
    d.runners@.map_values(|r: crate::model::Runner| r.name@)
}

/// The benchmark names of a document's runs.
pub open spec fn run_names_of(d: ResultsFormatted) -> Seq<Seq<char>> {
    d.runs@.map_values(|e: NamedRuns| e.benchmark@)
}

/// Each runner's aggregate time.
pub open spec fn totals_of(d: ResultsFormatted) -> Seq<nat> {
    d.runners@.map_values(|r: crate::model::Runner| runner_total(d.runs@, r.name@))
}

/// The cell of a benchmark's row under a runner: its mean time, or blank
/// without samples.
pub open spec fn cell_text(e: NamedRuns, runner: Seq<char>) -> Seq<char> {
    match cell_mean(e, runner) {
        Some(v) => duration_text(v),
        None => Seq::empty(),
    }
}

/// `rep` is the report of `d`.
pub open spec fn is_report_of(rep: Report, d: ResultsFormatted) -> bool {
    let n = d.runners.len();
    let names = runner_names_of(d);
    let totals = totals_of(d);
    let ro = rep.runner_order@;
    let bo = rep.benchmark_order@;
    &&& rep.totals.len() == n
    &&& forall|k: int| 0 <= k < n ==> rep.totals[k] == #[trigger] totals[k]
    &&& is_permutation(ro, n as nat)
    &&& is_ranked(ro, rep.totals@, names)
    &&& is_permutation(bo, d.runs.len() as nat)
    &&& is_ranked(bo, Seq::new(d.runs.len() as nat, |i: int| 0u128), run_names_of(d))
    &&& rep.header.len() == n + 1
    &&& rep.header[0]@ == Seq::<char>::empty()
    &&& forall|j: int| 0 <= j < n ==> (#[trigger] rep.header[j + 1])@ == names[ro[j] as int]
    &&& rep.rows.len() == d.runs.len() + 2
    &&& forall|i: int| 0 <= i < rep.rows.len() ==> (#[trigger] rep.rows[i]).len() == n + 1
    &&& rep.rows[0][0]@ == "**sum**"@
    &&& forall|j: int| 0 <= j < n ==> (#[trigger] rep.rows[0][j + 1])@ == duration_text(totals[ro[j] as int])
    &&& rep.rows[1][0]@ == "**relative**"@
    &&& forall|j: int|
        0 <= j < n ==> (#[trigger] rep.rows[1][j + 1])@ == relative_text(totals[ro[j] as int], least(totals))
    &&& forall|i: int| 0 <= i < d.runs.len() ==> (#[trigger] rep.rows[i + 2])[0]@ == d.runs[bo[i] as int].benchmark@
    &&& forall|i: int, j: int|
        0 <= i < d.runs.len() && 0 <= j < n ==> (#[trigger] rep.rows[i + 2][j + 1])@ == cell_text(
            d.runs[bo[i] as int],
            names[ro[j] as int],
        )
    &&& rep.missing.len() == d.runs.len()
    &&& forall|i: int| 0 <= i < d.runs.len() ==> (#[trigger] rep.missing[i]).len() == n
    &&& forall|i: int, j: int|
        0 <= i < d.runs.len() && 0 <= j < n ==> #[trigger] rep.missing[i][j] == result_index(
            d.runs[bo[i] as int].results@,
            names[ro[j] as int],
        ) is None
}

fn least_of(t: &Vec<u128>) -> (m: u128)
    ensures
        m == least(t@.map_values(|x: u128| x as nat)),
{
    let ghost v = t@.map_values(|x: u128| x as nat);
    if t.len() == 0 {
        return 0;
    }
    let mut m = t[0];
    let mut i: usize = 1;
    assert(v.subrange(0, 1).len() == 1);
    while i < t.len()
        invariant
            1 <= i <= t.len(),
            v == t@.map_values(|x: u128| x as nat),
            m == least(v.subrange(0, i as int)),
        decreases t.len() - i,
    {
        assert(v.subrange(0, i + 1).drop_last() =~= v.subrange(0, i as int));
        if t[i] < m {
            m = t[i];
        }
        i = i + 1;
    }
    assert(v.subrange(0, i as int) =~= v);
    m
}

impl ResultsFormatted {
    /// The comparison report: runners ranked by aggregate time, a sum row, a
    /// relative row against the fastest, and per benchmark each runner's
    /// mean time, blank without samples. `None` when an aggregate time
    /// exceeds the longest duration there is.
    pub fn report(&self) -> (r: Option<Report>)
        ensures
            r is Some <==> forall|k: int| 0 <= k < self.runners.len() ==> #[trigger] totals_of(*self)[k] <= MAX_TOTAL_NANOS,
            r is Some ==> is_report_of(r->0, *self),
    {
        let n = self.runners.len();
        let ghost tv = totals_of(*self);
        let ghost names = runner_names_of(*self);
        let mut totals: Vec<u128> = Vec::new();
        let mut rnames: Vec<String> = Vec::new();
        let mut k: usize = 0;
        while k < n
            invariant
                k <= n == self.runners.len(),
                tv == totals_of(*self),
                names == runner_names_of(*self),
                totals.len() == k,
                rnames.len() == k,
                forall|a: int| 0 <= a < k ==> totals[a] == #[trigger] tv[a] && tv[a] <= MAX_TOTAL_NANOS,
                forall|a: int| 0 <= a < k ==> (#[trigger] rnames[a])@ == names[a],
            decreases n - k,
        {
            match total_of(&self.runs, &self.runners[k].name) {
                Some(t) => {
                    totals.push(t);
                },
                None => {
                    assert(tv[k as int] > MAX_TOTAL_NANOS);
                    return None;
                },
            }
            rnames.push(self.runners[k].name.clone());
            k = k + 1;
        }
        assert(rnames@.map_values(|s: String| s@) =~= names);
        let runner_order = ranking(&totals, &rnames);
        let m = least_of(&totals);
        assert(totals@.map_values(|x: u128| x as nat) =~= tv);
        let mut bnames: Vec<String> = Vec::new();
        let mut zeros: Vec<u128> = Vec::new();
        let mut i: usize = 0;
        while i < self.runs.len()
            invariant
                i <= self.runs.len(),
                bnames.len() == i,
                zeros.len() == i,
                forall|a: int| 0 <= a < i ==> (#[trigger] bnames[a])@ == self.runs[a].benchmark@,
                forall|a: int| 0 <= a < i ==> #[trigger] zeros[a] == 0,
            decreases self.runs.len() - i,
        {
            bnames.push(self.runs[i].benchmark.clone());
            zeros.push(0);
            i = i + 1;
        }
        assert(bnames@.map_values(|s: String| s@) =~= run_names_of(*self));
        assert(zeros@ =~= Seq::new(self.runs.len() as nat, |i: int| 0u128));
        let benchmark_order = ranking(&zeros, &bnames);
        let mut header: Vec<String> = Vec::new();
        header.push(String::new());
        let mut sum_row: Vec<String> = Vec::new();
        sum_row.push("**sum**".to_string());
        let mut relative_row: Vec<String> = Vec::new();
        relative_row.push("**relative**".to_string());
        let mut j: usize = 0;
        while j < n
            invariant
                j <= n == self.runners.len() == totals.len() == rnames.len() == runner_order.len(),
                tv == totals_of(*self),
                names == runner_names_of(*self),
                is_permutation(runner_order@, n as nat),
                forall|a: int| 0 <= a < n ==> totals[a] == #[trigger] tv[a] && tv[a] <= MAX_TOTAL_NANOS,
                forall|a: int| 0 <= a < n ==> (#[trigger] rnames[a])@ == names[a],
                m == least(tv),
                m <= MAX_TOTAL_NANOS,
                header.len() == j + 1,
                sum_row.len() == j + 1,
                relative_row.len() == j + 1,
                header[0]@ == Seq::<char>::empty(),
                sum_row[0]@ == "**sum**"@,
                relative_row[0]@ == "**relative**"@,
                forall|a: int| 0 <= a < j ==> (#[trigger] header[a + 1])@ == names[runner_order[a] as int],
                forall|a: int| 0 <= a < j ==> (#[trigger] sum_row[a + 1])@ == duration_text(tv[runner_order[a] as int]),
                forall|a: int|
                    0 <= a < j ==> (#[trigger] relative_row[a + 1])@ == relative_text(tv[runner_order[a] as int], m as nat),
            decreases n - j,
        {
            let x = runner_order[j];
            assert(totals[x as int] == tv[x as int]);
            header.push(rnames[x].clone());
            sum_row.push(duration_string(totals[x]));
            relative_row.push(relative_string(totals[x], m));
            j = j + 1;
        }
        let mut rows: Vec<Vec<String>> = Vec::new();
        rows.push(sum_row);
        rows.push(relative_row);
        let mut missing: Vec<Vec<bool>> = Vec::new();
        let mut i: usize = 0;
        while i < self.runs.len()
            invariant
                i <= self.runs.len() == benchmark_order.len(),
                n == self.runners.len() == rnames.len() == runner_order.len(),
                names == runner_names_of(*self),
                is_permutation(runner_order@, n as nat),
                is_permutation(benchmark_order@, self.runs.len() as nat),
                forall|a: int| 0 <= a < n ==> (#[trigger] rnames[a])@ == names[a],
                rows.len() == i + 2,
                missing.len() == i,
                forall|a: int| 0 <= a < rows.len() ==> (#[trigger] rows[a]).len() == n + 1,
                rows[0]@ == sum_row@,
                rows[1]@ == relative_row@,
                forall|a: int| 0 <= a < i ==> (#[trigger] rows[a + 2])[0]@ == self.runs[benchmark_order[a] as int].benchmark@,
                forall|a: int, b: int|
                    0 <= a < i && 0 <= b < n ==> (#[trigger] rows[a + 2][b + 1])@ == cell_text(
                        self.runs[benchmark_order[a] as int],
                        names[runner_order[b] as int],
                    ),
                forall|a: int| 0 <= a < i ==> (#[trigger] missing[a]).len() == n,
                forall|a: int, b: int|
                    0 <= a < i && 0 <= b < n ==> #[trigger] missing[a][b] == result_index(
                        self.runs[benchmark_order[a] as int].results@,
                        names[runner_order[b] as int],
                    ) is None,
            decreases self.runs.len() - i,
        {
            let e = &self.runs[benchmark_order[i]];
            let mut row: Vec<String> = Vec::new();
            row.push(e.benchmark.clone());
            let mut gaps: Vec<bool> = Vec::new();
            let mut j: usize = 0;
            while j < n
                invariant
                    j <= n == rnames.len() == runner_order.len(),
                    is_permutation(runner_order@, n as nat),
                    forall|a: int| 0 <= a < n ==> (#[trigger] rnames[a])@ == names[a],
                    row.len() == j + 1,
                    gaps.len() == j,
                    row[0]@ == e.benchmark@,
                    forall|b: int| 0 <= b < j ==> (#[trigger] row[b + 1])@ == cell_text(*e, names[runner_order[b] as int]),
                    forall|b: int| 0 <= b < j ==> #[trigger] gaps[b] == result_index(e.results@, names[runner_order[b] as int]) is None,
                decreases n - j,
            {
                let x = runner_order[j];
                let cell = match cell_mean_of(e, &rnames[x]) {
                    Some(v) => duration_string(v),
                    None => String::new(),
                };
                row.push(cell);
                gaps.push(find_result(&e.results, &rnames[x]).is_none());
                j = j + 1;
            }
            let ghost old_rows = rows@;
            let ghost old_missing = missing@;
            rows.push(row);
            missing.push(gaps);
            proof {
                assert forall|a: int| 0 <= a < rows.len() implies (#[trigger] rows[a]).len() == n + 1 by {
                    if a < old_rows.len() {
                        assert(rows[a] == old_rows[a]);
                    }
                }
                assert forall|a: int| 0 <= a < i + 1 implies (#[trigger] rows[a + 2])[0]@ == self.runs[benchmark_order[a] as int].benchmark@ by {
                    if a < i {
                        assert(rows[a + 2] == old_rows[a + 2]);
                    }
                }
                assert forall|a: int, b: int|
                    0 <= a < i + 1 && 0 <= b < n implies (#[trigger] rows[a + 2][b + 1])@ == cell_text(
                        self.runs[benchmark_order[a] as int],
                        names[runner_order[b] as int],
                    ) by {
                    if a < i {
                        assert(rows[a + 2] == old_rows[a + 2]);
                    }
                }
                assert forall|a: int| 0 <= a < i + 1 implies (#[trigger] missing[a]).len() == n by {
                    if a < i {
                        assert(missing[a] == old_missing[a]);
                    }
                }
                assert forall|a: int, b: int|
                    0 <= a < i + 1 && 0 <= b < n implies #[trigger] missing[a][b] == result_index(
                        self.runs[benchmark_order[a] as int].results@,
                        names[runner_order[b] as int],
                    ) is None by {
                    if a < i {
                        assert(missing[a] == old_missing[a]);
                    }
                }
            }
            i = i + 1;
        }
        let rep = Report { totals, runner_order, benchmark_order, header, rows, missing };
        assert(rep.totals@.map_values(|x: u128| x as nat) =~= tv);
        Some(rep)
    }
}

proof fn lemma_least_attained(t: Seq<nat>)
    requires
        t.len() > 0,
    ensures
        exists|k: int| 0 <= k < t.len() && t[k] == least(t),
    decreases t.len(),
{
    if t.len() == 1 {
        assert(t[0] == least(t));
    } else {
        lemma_least_attained(t.drop_last());
        let k = choose|k: int| 0 <= k < t.drop_last().len() && t.drop_last()[k] == least(t.drop_last());
        if t.last() < least(t.drop_last()) {
            assert(t[t.len() - 1] == least(t));
        } else {
            assert(t[k] == least(t));
        }
    }
}

/// The fastest runner heads the table and its multiplier is `1.000x`.
pub proof fn lemma_report_anchor(rep: Report, d: ResultsFormatted)
    requires
        is_report_of(rep, d),
        d.runners.len() > 0,
    ensures
        totals_of(d)[rep.runner_order[0] as int] == least(totals_of(d)),
        rep.rows[1][1]@ == thousandths_text(1000, seq!['x']),
{
    let t = totals_of(d);
    let ro = rep.runner_order@;
    let n = d.runners.len();
    let m = least(t);
    lemma_least(t);
    lemma_least_attained(t);
    let k = choose|k: int| 0 <= k < t.len() && t[k] == m;
    lemma_permutation_covers(ro, n as nat, k);
    let j = choose|j: int| 0 <= j < ro.len() && ro[j] == k;
    assert(rep.totals[ro[0] as int] == t[ro[0] as int]);
    assert(rep.totals[ro[j] as int] == t[ro[j] as int]);
    if j > 0 {
        assert(ranks_before_or_with(
            rep.totals[ro[0] as int],
            runner_names_of(d)[ro[0] as int],
            rep.totals[ro[j] as int],
            runner_names_of(d)[ro[j] as int],
        ));
    }
    assert(t[ro[0] as int] == m);
    lemma_relative_anchor(t);
    assert(rep.rows[1][0int + 1]@ == relative_text(t[ro[0] as int], m));
}

} // verus!
