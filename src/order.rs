//! The orders of the report: names compare as strings do, character by
//! character; runners rank by aggregate time, then by name.

use vstd::prelude::*;
use vstd::set_lib::{lemma_int_range, lemma_len_subset, lemma_subset_equality, set_int_range};
use vstd::string::StrSliceExecFns;

verus! {

/// `a` sorts before `b`: lexicographic by character code, a proper prefix
/// first. This is the order of `String`, whose UTF-8 bytes compare as the
/// characters they encode.
pub open spec fn text_lt(a: Seq<char>, b: Seq<char>) -> bool
    decreases a.len(),
{
    if a.len() == 0 {
        b.len() > 0
    } else if b.len() == 0 {
        false
    } else if a[0] != b[0] {
        (a[0] as int) < (b[0] as int)
    } else {
        text_lt(a.drop_first(), b.drop_first())
    }
}

proof fn lemma_text_lt_irreflexive(a: Seq<char>)
    ensures
        !text_lt(a, a),
    decreases a.len(),
{
    if a.len() > 0 {
        lemma_text_lt_irreflexive(a.drop_first());
    }
}

proof fn lemma_text_lt_total(a: Seq<char>, b: Seq<char>)
    ensures
        text_lt(a, b) ==> !text_lt(b, a),
        !text_lt(a, b) && !text_lt(b, a) ==> a == b,
    decreases a.len(),
{
    if a.len() > 0 && b.len() > 0 {
        lemma_text_lt_total(a.drop_first(), b.drop_first());
        if a[0] != b[0] {
            assert((a[0] as int) != (b[0] as int));
        }
        if a[0] == b[0] && !text_lt(a, b) && !text_lt(b, a) {
            assert(a =~= seq![a[0]] + a.drop_first());
            assert(b =~= seq![b[0]] + b.drop_first());
            assert(a =~= b);
        }
    } else if a.len() == 0 && b.len() == 0 {
        assert(a =~= b);
    }
}

proof fn lemma_text_lt_transitive(a: Seq<char>, b: Seq<char>, c: Seq<char>)
    ensures
        text_lt(a, b) && text_lt(b, c) ==> text_lt(a, c),
    decreases a.len(),
{
    if a.len() > 0 && b.len() > 0 && c.len() > 0 {
        lemma_text_lt_transitive(a.drop_first(), b.drop_first(), c.drop_first());
    }
}

proof fn lemma_text_lt_order(a: Seq<char>, b: Seq<char>, c: Seq<char>)
    ensures
        !text_lt(a, a),
        text_lt(a, b) ==> !text_lt(b, a),
        !text_lt(a, b) && !text_lt(b, a) ==> a == b,
        text_lt(a, b) && text_lt(b, c) ==> text_lt(a, c),
{
    lemma_text_lt_irreflexive(a);
    lemma_text_lt_total(a, b);
    lemma_text_lt_transitive(a, b, c);
}

/// Whether `a` sorts before `b`.
pub fn name_lt(a: &String, b: &String) -> (r: bool)
    ensures
        r == text_lt(a@, b@),
{
    let sa = a.as_str();
    let sb = b.as_str();
    let la = sa.unicode_len();
    let lb = sb.unicode_len();
    let mut i: usize = 0;
    assert(a@.subrange(0, la as int) =~= a@);
    assert(b@.subrange(0, lb as int) =~= b@);
    while i < la && i < lb
        invariant
            i <= la == a@.len(),
            i <= lb == b@.len(),
            sa@ == a@,
            sb@ == b@,
            text_lt(a@, b@) == text_lt(a@.subrange(i as int, la as int), b@.subrange(i as int, lb as int)),
        decreases la - i,
    {
        let ca = sa.get_char(i);
        let cb = sb.get_char(i);
        let ghost x = a@.subrange(i as int, la as int);
        let ghost y = b@.subrange(i as int, lb as int);
        assert(x[0] == ca && y[0] == cb);
        if ca != cb {
            return (ca as u32) < (cb as u32);
        }
        assert(x.drop_first() =~= a@.subrange(i + 1, la as int));
        assert(y.drop_first() =~= b@.subrange(i + 1, lb as int));
        i = i + 1;
    }
    let ghost x = a@.subrange(i as int, la as int);
    let ghost y = b@.subrange(i as int, lb as int);
    assert(x.len() == la - i && y.len() == lb - i);
    i == la && i < lb
}

/// Entry `x` ranks no later than entry `y`: by key, then by name.
pub open spec fn ranks_before_or_with(kx: u128, nx: Seq<char>, ky: u128, ny: Seq<char>) -> bool {
    kx < ky || (kx == ky && !text_lt(ny, nx))
}

/// `order` holds each index below `n` once.
pub open spec fn is_permutation(order: Seq<usize>, n: nat) -> bool {
    &&& order.len() == n
    &&& forall|k: int| 0 <= k < order.len() ==> order[k] < n
    &&& forall|k: int, l: int| 0 <= k < l < order.len() ==> order[k] != order[l]
}

/// `order` lists the entries from first to last rank.
pub open spec fn is_ranked(order: Seq<usize>, keys: Seq<u128>, names: Seq<Seq<char>>) -> bool {
    forall|k: int, l: int|
        0 <= k < l < order.len() ==> ranks_before_or_with(
            keys[order[k] as int],
            names[order[k] as int],
            keys[order[l] as int],
            names[order[l] as int],
        )
}

proof fn lemma_rank_order(kx: u128, nx: Seq<char>, ky: u128, ny: Seq<char>, kz: u128, nz: Seq<char>)
    ensures
        ranks_before_or_with(kx, nx, ky, ny) || ranks_before_or_with(ky, ny, kx, nx),
        ranks_before_or_with(kx, nx, ky, ny) && ranks_before_or_with(ky, ny, kz, nz)
            ==> ranks_before_or_with(kx, nx, kz, nz),
{
    lemma_text_lt_order(nx, ny, nz);
    lemma_text_lt_order(ny, nx, nz);
    lemma_text_lt_order(nz, ny, nx);
    lemma_text_lt_order(nx, nz, ny);
    lemma_text_lt_order(ny, nz, nx);
    lemma_text_lt_order(nz, nx, ny);
}

/// The indices of the entries `(keys[i], names[i])`, from first to last rank.
pub fn ranking(keys: &Vec<u128>, names: &Vec<String>) -> (order: Vec<usize>)
    requires
        keys.len() == names.len(),
    ensures
        is_permutation(order@, keys.len() as nat),
        is_ranked(order@, keys@, names@.map_values(|s: String| s@)),
{
    let ghost nv = names@.map_values(|s: String| s@);
    let n = keys.len();
    let mut order: Vec<usize> = Vec::new();
    for i in 0..n
        invariant
            order.len() == i,
            forall|k: int| 0 <= k < i ==> order[k] == k,
    {
        order.push(i);
    }
    let mut k: usize = 0;
    while k < n
        invariant
            k <= n == keys.len() == names.len(),
            nv == names@.map_values(|s: String| s@),
            is_permutation(order@, n as nat),
            forall|a: int, b: int|
                0 <= a < b < n && a < k ==> ranks_before_or_with(
                    keys[order[a] as int],
                    nv[order[a] as int],
                    keys[order[b] as int],
                    nv[order[b] as int],
                ),
        decreases n - k,
    {
        let mut best: usize = k;
        let mut m: usize = k + 1;
        proof {
            lemma_text_lt_irreflexive(nv[order[k as int] as int]);
        }
        while m < n
            invariant
                k <= best < n,
                k < m <= n == keys.len() == names.len(),
                nv == names@.map_values(|s: String| s@),
                is_permutation(order@, n as nat),
                forall|c: int|
                    k <= c < m ==> ranks_before_or_with(
                        keys[order[best as int] as int],
                        nv[order[best as int] as int],
                        keys[#[trigger] order[c] as int],
                        nv[order[c] as int],
                    ),
            decreases n - m,
        {
            let x = order[m];
            let y = order[best];
            let before = keys[x] < keys[y] || (keys[x] == keys[y] && name_lt(&names[x], &names[y]));
            proof {
                lemma_rank_order(keys[x as int], nv[x as int], keys[y as int], nv[y as int], 0, Seq::empty());
            }
            if before {
                proof {
                    assert forall|c: int| k <= c < m + 1 implies ranks_before_or_with(
                        keys[x as int],
                        nv[x as int],
                        keys[#[trigger] order[c] as int],
                        nv[order[c] as int],
                    ) by {
                        let z = order[c];
                        lemma_text_lt_irreflexive(nv[x as int]);
                        lemma_rank_order(keys[x as int], nv[x as int], keys[y as int], nv[y as int], keys[z as int], nv[z as int]);
                    }
                }
                best = m;
            }
            m = m + 1;
        }
        let ghost before_swap = order@;
        let a = order[k];
        let b = order[best];
        order.set(k, b);
        order.set(best, a);
        proof {
            assert forall|p: int, q: int| 0 <= p < q < order.len() implies order[p] != order[q] by {
                let pp = if p == k { best as int } else if p == best { k as int } else { p };
                let qq = if q == k { best as int } else if q == best { k as int } else { q };
                assert(order[p] == before_swap[pp] && order[q] == before_swap[qq]);
            }
            assert forall|p: int, q: int| 0 <= p < q < n && p < k + 1 implies ranks_before_or_with(
                keys[order[p] as int],
                nv[order[p] as int],
                keys[order[q] as int],
                nv[order[q] as int],
            ) by {
                if p < k {
                    let qq = if q == k { best as int } else if q == best { k as int } else { q };
                    assert(order[q] == before_swap[qq]);
                    assert(order[p] == before_swap[p]);
                } else {
                    let qq = if q == best { k as int } else { q };
                    assert(order[q] == before_swap[qq]);
                    assert(k <= qq < n);
                }
            }
        }
        k = k + 1;
    }
    order
}

/// A permutation of the indices below `n` lists each of them.
pub proof fn lemma_permutation_covers(order: Seq<usize>, n: nat, k: int)
    requires
        is_permutation(order, n),
        0 <= k < n,
    ensures
        exists|j: int| 0 <= j < order.len() && order[j] == k,
{
    let o = order.map_values(|x: usize| x as int);
    assert(o.no_duplicates()) by {
        assert forall|i: int, j: int| 0 <= i < o.len() && 0 <= j < o.len() && i != j implies o[i] != o[j] by {
            if i < j {
                assert(order[i] != order[j]);
            } else {
                assert(order[j] != order[i]);
            }
        }
    }
    o.unique_seq_to_set();
    let s = o.to_set();
    let range = set_int_range(0, n as int);
    lemma_int_range(0, n as int);
    assert(s.subset_of(range)) by {
        assert forall|x: int| s.contains(x) implies range.contains(x) by {
            let i = choose|i: int| 0 <= i < o.len() && o[i] == x;
            assert(order[i] < n);
        }
    }
    lemma_len_subset(s, range);
    lemma_subset_equality(s, range);
    assert(range.contains(k));
    assert(s.contains(k));
    let j = choose|j: int| 0 <= j < o.len() && o[j] == k;
    assert(order[j] == k);
}

} // verus!
