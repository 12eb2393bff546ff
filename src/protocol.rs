//! The runner protocol's output: one number of milliseconds per line, once
//! surrounding space is trimmed.

use vstd::prelude::*;

verus! {

/// The bytes that trimming removes: space and the ASCII control
/// characters tab, line feed, vertical tab, form feed and carriage return.
pub open spec fn is_space(b: u8) -> bool {
    b == 32 || (9 <= b && b <= 13)
}

pub open spec fn trim_start(s: Seq<u8>) -> Seq<u8>
    decreases s.len(),
{
    if s.len() > 0 && is_space(s[0]) {
        trim_start(s.drop_first())
    } else {
        s
    }
}

pub open spec fn trim_end(s: Seq<u8>) -> Seq<u8>
    decreases s.len(),
{
    if s.len() > 0 && is_space(s.last()) {
        trim_end(s.drop_last())
    } else {
        s
    }
}

/// The offset of the first line feed in `s`, or its length if it has none.
pub open spec fn line_end(s: Seq<u8>) -> nat
    decreases s.len(),
{
    if s.len() == 0 || s[0] == 10 {
        0
    } else {
        1 + line_end(s.drop_first())
    }
}

/// A line without its terminating carriage return, if it has one.
pub open spec fn strip_cr(l: Seq<u8>) -> Seq<u8> {
    if l.len() > 0 && l.last() == 13 {
        l.drop_last()
    } else {
        l
    }
}

/// The lines of `s`: split at each line feed, a carriage return before it
/// dropped; a final line feed does not start another line.
pub open spec fn lines(s: Seq<u8>) -> Seq<Seq<u8>>
    decreases s.len(),
{
    if s.len() == 0 {
        Seq::empty()
    } else {
        let k = line_end(s) as int;
        let rest = if k < s.len() { s.subrange(k + 1, s.len() as int) } else { Seq::empty() };
        seq![strip_cr(s.subrange(0, k))] + lines(rest)
    }
}

/// The lines of a runner's standard output, once surrounding space is trimmed.
pub open spec fn output_lines(out: Seq<u8>) -> Seq<Seq<u8>> {
    lines(trim_end(trim_start(out)))
}

proof fn lemma_trim_start(s: Seq<u8>, a: int)
    requires
        0 <= a <= s.len(),
        forall|j: int| 0 <= j < a ==> is_space(#[trigger] s[j]),
        a == s.len() || !is_space(s[a]),
    ensures
        trim_start(s) == s.subrange(a, s.len() as int),
    decreases a,
{
    if a == 0 {
        assert(s.subrange(0, s.len() as int) =~= s);
    } else {
        let t = s.drop_first();
        assert forall|j: int| 0 <= j < a - 1 implies is_space(#[trigger] t[j]) by {
            assert(t[j] == s[j + 1]);
        }
        lemma_trim_start(t, a - 1);
        assert(t.subrange(a - 1, t.len() as int) =~= s.subrange(a, s.len() as int));
    }
}

proof fn lemma_trim_end(s: Seq<u8>, b: int)
    requires
        0 <= b <= s.len(),
        forall|j: int| b <= j < s.len() ==> is_space(#[trigger] s[j]),
        b == 0 || !is_space(s[b - 1]),
    ensures
        trim_end(s) == s.subrange(0, b),
    decreases s.len() - b,
{
    if b == s.len() {
        assert(s.subrange(0, b) =~= s);
    } else {
        let t = s.drop_last();
        lemma_trim_end(t, b);
        assert(t.subrange(0, b) =~= s.subrange(0, b));
    }
}

proof fn lemma_line_end(u: Seq<u8>, m: int)
    requires
        0 <= m <= u.len(),
        forall|j: int| 0 <= j < m ==> #[trigger] u[j] != 10,
        m == u.len() || u[m] == 10,
    ensures
        line_end(u) == m,
    decreases m,
{
    if m > 0 {
        let t = u.drop_first();
        assert forall|j: int| 0 <= j < m - 1 implies #[trigger] t[j] != 10 by {
            assert(t[j] == u[j + 1]);
        }
        lemma_line_end(t, m - 1);
    }
}

/// The start and end offsets in `out` of each of `output_lines(out)`.
pub fn output_line_ranges(out: &Vec<u8>) -> (r: Vec<(usize, usize)>)
    ensures
        r.len() == output_lines(out@).len(),
        forall|i: int|
            0 <= i < r.len() ==> {
                &&& r[i].0 <= r[i].1 <= out.len()
                &&& out@.subrange(#[trigger] r[i].0 as int, r[i].1 as int) == output_lines(out@)[i]
            },
{
    let n = out.len();
    let mut a: usize = 0;
    while a < n && (out[a] == 32 || (out[a] >= 9 && out[a] <= 13))
        invariant
            a <= n == out.len(),
            forall|j: int| 0 <= j < a ==> is_space(#[trigger] out@[j]),
        decreases n - a,
    {
        a = a + 1;
    }
    let mut b: usize = n;
    while b > a && (out[b - 1] == 32 || (out[b - 1] >= 9 && out[b - 1] <= 13))
        invariant
            a <= b <= n == out.len(),
            forall|j: int| b <= j < n ==> is_space(#[trigger] out@[j]),
        decreases b,
    {
        b = b - 1;
    }
    let ghost text = out@.subrange(a as int, b as int);
    proof {
        lemma_trim_start(out@, a as int);
        let t = out@.subrange(a as int, n as int);
        assert forall|j: int| b - a <= j < t.len() implies is_space(#[trigger] t[j]) by {
            assert(t[j] == out@[a + j]);
        }
        if b > a {
            assert(t[b - a - 1] == out@[b - 1]);
        }
        lemma_trim_end(t, b - a);
        assert(t.subrange(0, b - a) =~= text);
    }
    let mut r: Vec<(usize, usize)> = Vec::new();
    let mut start: usize = a;
    while start < b
        invariant
            a <= start <= b <= n == out.len(),
            text == out@.subrange(a as int, b as int),
            output_lines(out@) == lines(text),
            forall|i: int|
                0 <= i < r.len() ==> {
                    &&& r[i].0 <= r[i].1 <= out.len()
                    &&& out@.subrange(#[trigger] r[i].0 as int, r[i].1 as int) == lines(text)[i]
                },
            r@.len() + lines(out@.subrange(start as int, b as int)).len() == lines(text).len(),
            forall|i: int|
                0 <= i < lines(out@.subrange(start as int, b as int)).len() ==> #[trigger] lines(
                    out@.subrange(start as int, b as int),
                )[i] == lines(text)[r.len() + i],
        decreases b - start,
    {
        let ghost u = out@.subrange(start as int, b as int);
        let mut k: usize = start;
        while k < b && out[k] != 10
            invariant
                start <= k <= b <= out.len(),
                forall|j: int| start <= j < k ==> #[trigger] out@[j] != 10,
            decreases b - k,
        {
            k = k + 1;
        }
        proof {
            assert forall|j: int| 0 <= j < k - start implies #[trigger] u[j] != 10 by {
                assert(u[j] == out@[start + j]);
            }
            if k < b {
                assert(u[k - start] == out@[k as int]);
            }
            lemma_line_end(u, k - start);
        }
        let end = if k > start && out[k - 1] == 13 {
            k - 1
        } else {
            k
        };
        let next = if k < b {
            k + 1
        } else {
            b
        };
        proof {
            let m = k - start;
            let head = u.subrange(0, m);
            assert(head =~= out@.subrange(start as int, k as int));
            assert(strip_cr(head) =~= out@.subrange(start as int, end as int));
            let rest = if m < u.len() { u.subrange(m + 1, u.len() as int) } else { Seq::empty() };
            assert(rest =~= out@.subrange(next as int, b as int));
            assert(lines(u) == seq![strip_cr(head)] + lines(rest));
            assert(lines(u)[0] == strip_cr(head));
            assert(lines(u)[0] == lines(text)[r.len() as int]);
            assert forall|i: int| 0 <= i < lines(rest).len() implies #[trigger] lines(rest)[i]
                == lines(text)[r.len() + 1 + i] by {
                assert(lines(u)[i + 1] == lines(rest)[i]);
            }
        }
        let ghost old_r = r@;
        r.push((start, end));
        proof {
            assert forall|i: int| 0 <= i < r.len() implies {
                &&& r[i].0 <= r[i].1 <= out.len()
                &&& out@.subrange(#[trigger] r[i].0 as int, r[i].1 as int) == lines(text)[i]
            } by {
                if i < old_r.len() {
                    assert(r[i] == old_r[i]);
                    assert(out@.subrange(old_r[i].0 as int, old_r[i].1 as int) == lines(text)[i]);
                } else {
                    assert(r[i] == (start, end));
                    assert(out@.subrange(start as int, end as int) == lines(text)[old_r.len() as int]);
                }
            }
        }
        start = next;
    }
    proof {
        assert(out@.subrange(start as int, b as int) =~= Seq::<u8>::empty());
        assert(lines(Seq::<u8>::empty()).len() == 0);
        assert forall|i: int| 0 <= i < r.len() implies {
            &&& r[i].0 <= r[i].1 <= out.len()
            &&& out@.subrange(#[trigger] r[i].0 as int, r[i].1 as int) == output_lines(out@)[i]
        } by {
            assert(out@.subrange(r[i].0 as int, r[i].1 as int) == lines(text)[i]);
        }
    }
    r
}

} // verus!
