//! Laying out a list of solutions for a page: shortest words first, five
//! to a row.
use vstd::prelude::*;

use crate::text::byte_len;

verus! {

/// The strings of `s` whose length in bytes is `len`, in order.
pub open spec fn of_len(s: Seq<String>, len: usize) -> Seq<String>
    decreases s.len(),
{
    if s.len() == 0 {
        Seq::empty()
    } else {
        let rest = of_len(s.drop_last(), len);
        if byte_len(s.last()@) == len {
            rest.push(s.last())
        } else {
            rest
        }
    }
}

/// Longer strings (in bytes) come first.
pub open spec fn longest_first(s: Seq<String>) -> bool {
    forall|i: int, j: int|
        0 <= i < j < s.len() ==> byte_len((#[trigger] s[i])@) >= byte_len((#[trigger] s[j])@)
}

/// `out` is `inp` sorted by length in bytes, longest first, with strings of
/// equal length kept in their order: a stable sort.
pub open spec fn stable_sorted_by_len(out: Seq<String>, inp: Seq<String>) -> bool {
    &&& longest_first(out)
    &&& forall|len: usize| #[trigger] of_len(out, len) == of_len(inp, len)
}

/// The `k`-th row of a layout of `order` in rows of five.
pub open spec fn row_of(order: Seq<String>, k: int) -> Seq<String> {
    let n = order.len() as int;
    let lo = if 5 * k <= n { 5 * k } else { n };
    let hi = if 5 * k + 5 <= n { 5 * k + 5 } else { n };
    order.subrange(lo, hi)
}

proof fn lemma_of_len_concat(a: Seq<String>, b: Seq<String>, len: usize)
    ensures
        of_len(a + b, len) == of_len(a, len) + of_len(b, len),
    decreases b.len(),
{
    if b.len() == 0 {
        assert(a + b =~= a);
        assert(of_len(a, len) + of_len(b, len) =~= of_len(a, len));
    } else {
        assert((a + b).drop_last() =~= a + b.drop_last());
        assert((a + b).last() == b.last());
        lemma_of_len_concat(a, b.drop_last(), len);
        if byte_len(b.last()@) == len {
            assert(of_len(a, len) + of_len(b.drop_last(), len).push(b.last()) =~= (of_len(a, len)
                + of_len(b.drop_last(), len)).push(b.last()));
        }
    }
}

proof fn lemma_of_len_none(b: Seq<String>, len: usize)
    requires
        forall|i: int| 0 <= i < b.len() ==> byte_len((#[trigger] b[i])@) != len,
    ensures
        of_len(b, len) == Seq::<String>::empty(),
    decreases b.len(),
{
    if b.len() > 0 {
        assert(b.last() == b[b.len() - 1]);
        lemma_of_len_none(b.drop_last(), len);
    }
}

proof fn lemma_of_len_single(x: String, len: usize)
    ensures
        of_len(seq![x], len) == if byte_len(x@) == len {
            seq![x]
        } else {
            Seq::<String>::empty()
        },
{
    assert(seq![x].drop_last() =~= Seq::<String>::empty());
    assert(seq![x].last() == x);
    assert(of_len(seq![x].drop_last(), len) =~= Seq::<String>::empty());
    if byte_len(x@) == len {
        assert(Seq::<String>::empty().push(x) =~= seq![x]);
    }
}

/// Puts `x` into the stably sorted `sorted`: after every string at least
/// as long, before every shorter one.
fn insert_by_len(sorted: &mut Vec<String>, x: String)
    requires
        longest_first(old(sorted)@),
    ensures
        final(sorted)@.len() == old(sorted)@.len() + 1,
        longest_first(final(sorted)@),
        forall|len: usize| #[trigger]
            of_len(final(sorted)@, len) == if byte_len(x@) == len {
                of_len(old(sorted)@, len).push(x)
            } else {
                of_len(old(sorted)@, len)
            },
{
    let xl = x.as_str().len();
    let mut p: usize = 0;
    while p < sorted.len() && sorted[p].as_str().len() >= xl
        invariant
            p <= sorted@.len(),
            sorted@ == old(sorted)@,
            longest_first(sorted@),
            xl == byte_len(x@),
            forall|i: int| 0 <= i < p ==> byte_len((#[trigger] sorted@[i])@) >= xl,
        decreases sorted@.len() - p,
    {
        p += 1;
    }
    let ghost s = sorted@;
    proof {
        assert forall|i: int| p <= i < s.len() implies byte_len((#[trigger] s[i])@) < xl by {
            if p < s.len() {
                assert(byte_len(s[p as int]@) < xl);
                if i > p {
                    assert(byte_len(s[p as int]@) >= byte_len(s[i]@));
                }
            }
        }
    }
    sorted.insert(p, x);
    proof {
        let n = sorted@;
        let a = s.take(p as int);
        let b = s.skip(p as int);
        assert(n =~= a + seq![x] + b);
        assert(s =~= a + b);
        assert forall|i: int, j: int| 0 <= i < j < n.len() implies byte_len((#[trigger] n[i])@)
            >= byte_len((#[trigger] n[j])@) by {
            if i < p && j < p {
                assert(n[i] == s[i] && n[j] == s[j]);
            } else if i < p && j == p {
                assert(n[i] == s[i]);
            } else if i < p {
                assert(n[i] == s[i] && n[j] == s[j - 1]);
            } else if i == p {
                assert(n[j] == s[j - 1]);
            } else {
                assert(n[i] == s[i - 1] && n[j] == s[j - 1]);
            }
        }
        assert forall|len: usize| #[trigger]
            of_len(n, len) == if byte_len(x@) == len {
                of_len(s, len).push(x)
            } else {
                of_len(s, len)
            } by {
            lemma_of_len_concat(a + seq![x], b, len);
            lemma_of_len_concat(a, seq![x], len);
            lemma_of_len_concat(a, b, len);
            lemma_of_len_single(x, len);
            if byte_len(x@) == len {
                assert forall|i: int| 0 <= i < b.len() implies byte_len((#[trigger] b[i])@)
                    != len by {
                    assert(b[i] == s[p + i]);
                }
                lemma_of_len_none(b, len);
                assert(of_len(a, len) + seq![x] + Seq::<String>::empty() =~= (of_len(a, len)
                    + Seq::<String>::empty()).push(x));
            } else {
                assert(of_len(a, len) + Seq::<String>::empty() =~= of_len(a, len));
            }
        }
    }
}

/// The solutions sorted by length in bytes, longest first, keeping the
/// order of words of equal length.
fn sort_by_len_desc(solutions: &Vec<String>) -> (r: Vec<String>)
    ensures
        stable_sorted_by_len(r@, solutions@),
        r@.len() == solutions@.len(),
{
    let mut sorted: Vec<String> = Vec::new();
    let mut i: usize = 0;
    while i < solutions.len()
        invariant
            i <= solutions@.len(),
            sorted@.len() == i,
            longest_first(sorted@),
            forall|len: usize| #[trigger] of_len(sorted@, len) == of_len(solutions@.take(i as int), len),
        decreases solutions@.len() - i,
    {
        let x = solutions[i].clone();
        let ghost before = sorted@;
        insert_by_len(&mut sorted, x);
        proof {
            let t = solutions@.take(i + 1);
            assert(t.drop_last() =~= solutions@.take(i as int));
            assert(t.last() == solutions@[i as int]);
        }
        i += 1;
    }
    proof {
        assert(solutions@.take(solutions@.len() as int) =~= solutions@);
    }
    sorted
}

/// `rows` lays out `solutions`: sorted stably by length in bytes, longest
/// first, then read from the end five to a row, with one row more than
/// full rows fit.
pub open spec fn lays_out(rows: Seq<Vec<String>>, solutions: Seq<String>) -> bool {
    exists|sorted: Seq<String>|
        stable_sorted_by_len(sorted, solutions) && {
            let order = sorted.reverse();
            &&& rows.len() == solutions.len() / 5 + 1
            &&& forall|k: int| 0 <= k < rows.len() ==> (#[trigger] rows[k])@ == row_of(order, k)
        }
}

/// The solutions laid out for a page: sorted by length in bytes, longest
/// first (equal lengths in their order), then taken from the end (so the
/// shortest come first) five to a row. There is one row more than full
/// rows fit, so the last row holds what is left, possibly nothing.
pub fn format_solutions(solutions: &Vec<String>) -> (r: Vec<Vec<String>>)
    ensures
        lays_out(r@, solutions@),
{
    let n_columns: usize = 5;
    let mut sorted = sort_by_len_desc(solutions);
    let ghost full = sorted@;
    let ghost order = full.reverse();
    let n = sorted.len();
    let rows = n / n_columns + 1;
    let mut formatted: Vec<Vec<String>> = Vec::new();
    let mut k: usize = 0;
    while k < rows
        invariant
            n == full.len(),
            order == full.reverse(),
            rows == n / 5 + 1,
            n_columns == 5,
            k <= rows,
            formatted@.len() == k,
            sorted@ == full.take(n - if 5 * k <= n { 5 * k } else { n as int }),
            forall|j: int| 0 <= j < k ==> (#[trigger] formatted@[j])@ == row_of(order, j),
        decreases rows - k,
    {
        let mut row: Vec<String> = Vec::new();
        let ghost taken = if 5 * k <= n { 5 * k } else { n as int };
        let mut c: usize = 0;
        while c < n_columns
            invariant
                n == full.len(),
                order == full.reverse(),
                n_columns == 5,
                0 <= taken <= n,
                c <= 5,
                taken + c <= n,
                sorted@ == full.take(n - taken - c),
                row@ == order.subrange(taken, taken + c),
            ensures
                c <= 5,
                taken + c <= n,
                sorted@ == full.take(n - taken - c),
                row@ == order.subrange(taken, taken + c),
                c == 5 || taken + c == n,
            decreases n_columns - c,
        {
            match sorted.pop() {
                Some(word) => {
                    proof {
                        assert(word == full[n - taken - c - 1]);
                        assert(order[taken + c] == full[n - 1 - (taken + c)]);
                    }
                    row.push(word);
                    proof {
                        assert(row@ =~= order.subrange(taken, taken + c + 1));
                        assert(sorted@ =~= full.take(n - taken - c - 1));
                    }
                    c += 1;
                },
                None => {
                    proof {
                        assert(full.take(n - taken - c).len() == 0);
                    }
                    break;
                },
            }
        }
        proof {
            assert(taken + c == if 5 * k + 5 <= n { 5 * k + 5 } else { n as int });
            assert(row@ == row_of(order, k as int));
        }
        formatted.push(row);
        k += 1;
    }
    proof {
        assert(stable_sorted_by_len(full, solutions@));
        assert(formatted@.len() == solutions@.len() / 5 + 1);
        assert(forall|j: int| 0 <= j < formatted@.len() ==> (#[trigger] formatted@[j])@ == row_of(
            full.reverse(),
            j,
        ));
    }
    formatted
}

} // verus!
