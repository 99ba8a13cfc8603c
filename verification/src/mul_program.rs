use vstd::prelude::*;
use crate::claw::{
    digit_run_end, digits_value, expect_lit, is_digit, lemma_digit_run_end_of,
    lemma_digit_run_end_props, lit_match,
};

verus! {

pub open spec fn mul_head() -> Seq<char> {
    seq!['m', 'u', 'l', '(']
}

/// The multiplication instruction written at position i: its two factors
/// and the position just after the closing parenthesis.  A factor is one to
/// three digits; longer runs match nowhere, as the bounded greedy repetition
/// of the original pattern had it.
pub open spec fn mul_at(s: Seq<char>, i: int) -> Option<(int, int, int)> {
    if !lit_match(s, i, mul_head()) {
        None
    } else {
        let p1 = i + 4;
        let e1 = digit_run_end(s, p1);
        if !(1 <= e1 - p1 <= 3 && e1 < s.len() && s[e1] == ',') {
            None
        } else {
            let p2 = e1 + 1;
            let e2 = digit_run_end(s, p2);
            if !(1 <= e2 - p2 <= 3 && e2 < s.len() && s[e2] == ')') {
                None
            } else {
                Some((digits_value(s, p1, e1), digits_value(s, p2, e2), e2 + 1))
            }
        }
    }
}

/// The factor pairs of every instruction from position i on, scanning left
/// to right and resuming after each match.
pub open spec fn muls_from(s: Seq<char>, i: int, fuel: nat) -> Seq<(int, int)>
    decreases fuel,
{
    if fuel == 0 || i >= s.len() {
        Seq::empty()
    } else {
        match mul_at(s, i) {
            Some(v) => seq![(v.0, v.1)] + muls_from(s, v.2, (fuel - 1) as nat),
            None => muls_from(s, i + 1, (fuel - 1) as nat),
        }
    }
}

/// All multiplication instructions of the line, in order.
pub open spec fn mul_statements(s: Seq<char>) -> Seq<(int, int)> {
    muls_from(s, 0, (s.len() + 1) as nat)
}

/// The end of the digit run from `from`.
fn scan_digit_run(line: &Vec<char>, from: usize) -> (r: usize)
    requires
        from <= line@.len(),
    ensures
        r == digit_run_end(line@, from as int),
        from <= r <= line@.len(),
{
    let mut i = from;
    while i < line.len() && line[i] >= '0' && line[i] <= '9'
        invariant
            from <= i <= line@.len(),
            forall|j: int| from <= j < i ==> is_digit(#[trigger] line@[j]),
        decreases line@.len() - i,
    {
        i += 1;
    }
    proof {
        lemma_digit_run_end_of(line@, from as int, i as int);
    }
    i
}

/// The value of the digits line[from..to].
fn digit_value_exec(line: &Vec<char>, from: usize, to: usize) -> (r: u64)
    requires
        from <= to <= line@.len(),
        to - from <= 3,
        forall|j: int| from <= j < to ==> is_digit(#[trigger] line@[j]),
    ensures
        r == digits_value(line@, from as int, to as int),
        r <= 999,
{
    proof {
        lemma_small_digits(line@, from as int, to as int);
    }
    let mut val: u64 = 0;
    let mut j = from;
    while j < to
        invariant
            from <= j <= to <= line@.len(),
            to - from <= 3,
            forall|jj: int| from <= jj < to ==> is_digit(#[trigger] line@[jj]),
            val == digits_value(line@, from as int, j as int),
            val <= 999,
        decreases to - j,
    {
        proof {
            lemma_small_digits(line@, from as int, j + 1);
        }
        let d = (line[j] as u32) - ('0' as u32);
        val = val * 10 + (d as u64);
        j += 1;
    }
    val
}

/// Up to three digits write a number below a thousand.
proof fn lemma_small_digits(s: Seq<char>, from: int, to: int)
    requires
        0 <= from <= to <= s.len(),
        to - from <= 3,
        forall|j: int| from <= j < to ==> is_digit(#[trigger] s[j]),
    ensures
        0 <= digits_value(s, from, to) <= 999,
    decreases to - from,
{
    if to > from {
        lemma_small_digits_inner(s, from, to);
    }
}

proof fn lemma_small_digits_inner(s: Seq<char>, from: int, to: int)
    requires
        0 <= from <= to <= s.len(),
        to - from <= 3,
        forall|j: int| from <= j < to ==> is_digit(#[trigger] s[j]),
    ensures
        0 <= digits_value(s, from, to) <= (if to - from <= 0 {
            0int
        } else if to - from == 1 {
            9
        } else if to - from == 2 {
            99
        } else {
            999
        }),
    decreases to - from,
{
    if to > from {
        lemma_small_digits_inner(s, from, to - 1);
    }
}

/// The instruction at position i, parsed at runtime.
fn try_mul(line: &Vec<char>, i: usize) -> (r: Option<(u64, u64, usize)>)
    requires
        i <= line@.len(),
    ensures
        match r {
            Some(v) => mul_at(line@, i as int) == Some((v.0 as int, v.1 as int, v.2 as int)) && i
                < v.2 <= line@.len(),
            None => mul_at(line@, i as int) is None,
        },
{
    let head: [char; 4] = ['m', 'u', 'l', '('];
    proof {
        assert(head@ =~= mul_head());
    }
    let p1 = match expect_lit(line, i, head.as_slice()) {
        Some(p) => p,
        None => {
            return None;
        },
    };
    let e1 = scan_digit_run(line, p1);
    if !(e1 - p1 >= 1 && e1 - p1 <= 3 && e1 < line.len() && line[e1] == ',') {
        return None;
    }
    let p2 = e1 + 1;
    let e2 = scan_digit_run(line, p2);
    if !(e2 - p2 >= 1 && e2 - p2 <= 3 && e2 < line.len() && line[e2] == ')') {
        return None;
    }
    proof {
        lemma_digit_run_end_props(line@, p1 as int);
        lemma_digit_run_end_props(line@, p2 as int);
    }
    let a = digit_value_exec(line, p1, e1);
    let b = digit_value_exec(line, p2, e2);
    Some((a, b, e2 + 1))
}

/// Every factor pair written in the line, left to right, never overlapping.
pub fn parse_mul_statements(line: &Vec<char>) -> (r: Vec<(u64, u64)>)
    ensures
        r@.len() == mul_statements(line@).len(),
        forall|k: int|
            0 <= k < r@.len() ==> ((#[trigger] r@[k]).0 as int, r@[k].1 as int)
                == mul_statements(line@)[k],
{
    let ghost s = line@;
    let mut out: Vec<(u64, u64)> = Vec::new();
    let mut i: usize = 0;
    let ghost mut fuel: nat = (s.len() + 1) as nat;
    proof {
        assert(mul_statements(s) == muls_from(s, 0, fuel));
    }
    while i < line.len()
        invariant
            s == line@,
            i <= s.len(),
            fuel >= s.len() - i + 1,
            mul_statements(s).len() == out@.len() + muls_from(s, i as int, fuel).len(),
            forall|k: int|
                0 <= k < out@.len() ==> ((#[trigger] out@[k]).0 as int, out@[k].1 as int)
                    == mul_statements(s)[k],
            forall|k: int|
                0 <= k < muls_from(s, i as int, fuel).len() ==> #[trigger] muls_from(
                    s,
                    i as int,
                    fuel,
                )[k] == mul_statements(s)[out@.len() + k],
        decreases s.len() - i,
    {
        let ghost fuel_pre = fuel;
        let ghost rest_pre = muls_from(s, i as int, fuel);
        match try_mul(line, i) {
            Some(v) => {
                let (a, b, end) = v;
                proof {
                    fuel = (fuel - 1) as nat;
                    assert(rest_pre == seq![(a as int, b as int)] + muls_from(s, end as int, fuel));
                    assert(rest_pre[0] == (a as int, b as int));
                    assert forall|k: int|
                        0 <= k < muls_from(s, end as int, fuel).len() implies #[trigger] muls_from(
                        s,
                        end as int,
                        fuel,
                    )[k] == rest_pre[k + 1] by {}
                }
                out.push((a, b));
                i = end;
            },
            None => {
                proof {
                    fuel = (fuel - 1) as nat;
                    assert(rest_pre == muls_from(s, i + 1, fuel));
                }
                i += 1;
            },
        }
    }
    proof {
        assert(muls_from(s, i as int, fuel).len() == 0);
    }
    out
}

/// Sum of the products of the first n factor pairs.
pub open spec fn product_sum(ms: Seq<(int, int)>, n: int) -> int
    decreases n,
{
    if n <= 0 {
        0
    } else {
        product_sum(ms, n - 1) + ms[n - 1].0 * ms[n - 1].1
    }
}

/// Sum over whole lines of their instruction products.
pub open spec fn lines_product_sum(lines: Seq<Vec<char>>, n: int) -> int
    decreases n,
{
    if n <= 0 {
        0
    } else {
        let ms = mul_statements(lines[n - 1]@);
        lines_product_sum(lines, n - 1) + product_sum(ms, ms.len() as int)
    }
}

/// Every parsed factor lies between zero and 999.
proof fn lemma_muls_bounded(s: Seq<char>, i: int, fuel: nat)
    requires
        0 <= i,
    ensures
        forall|k: int|
            0 <= k < muls_from(s, i, fuel).len() ==> 0 <= (#[trigger] muls_from(s, i, fuel)[k]).0
                <= 999 && 0 <= muls_from(s, i, fuel)[k].1 <= 999,
    decreases fuel,
{
    if fuel > 0 && i < s.len() {
        match mul_at(s, i) {
            Some(v) => {
                lemma_muls_bounded(s, v.2, (fuel - 1) as nat);
                lemma_digit_run_end_props(s, i + 4);
                lemma_digit_run_end_props(s, digit_run_end(s, i + 4) + 1);
                lemma_small_digits(s, i + 4, digit_run_end(s, i + 4));
                lemma_small_digits(
                    s,
                    digit_run_end(s, i + 4) + 1,
                    digit_run_end(s, digit_run_end(s, i + 4) + 1),
                );
                assert(0 <= v.0 <= 999);
                assert(0 <= v.1 <= 999);
                assert forall|k: int|
                    0 <= k < muls_from(s, i, fuel).len() implies 0 <= (#[trigger] muls_from(
                    s,
                    i,
                    fuel,
                )[k]).0 <= 999 && 0 <= muls_from(s, i, fuel)[k].1 <= 999 by {
                    if k > 0 {
                        assert(muls_from(s, i, fuel)[k] == muls_from(s, v.2, (fuel - 1) as nat)[k
                            - 1]);
                    }
                }
            },
            None => {
                lemma_muls_bounded(s, i + 1, (fuel - 1) as nat);
                assert(muls_from(s, i, fuel) == muls_from(s, i + 1, (fuel - 1) as nat));
                assert forall|k: int|
                    0 <= k < muls_from(s, i, fuel).len() implies 0 <= (#[trigger] muls_from(
                    s,
                    i,
                    fuel,
                )[k]).0 <= 999 && 0 <= muls_from(s, i, fuel)[k].1 <= 999 by {
                    assert(muls_from(s, i, fuel)[k] == muls_from(s, i + 1, (fuel - 1) as nat)[k]);
                }
            },
        }
    }
}

proof fn lemma_product_sum_monotone(ms: Seq<(int, int)>, i: int, j: int)
    requires
        0 <= i <= j,
        forall|k: int| 0 <= k < ms.len() ==> 0 <= (#[trigger] ms[k]).0 && 0 <= ms[k].1,
        j <= ms.len(),
    ensures
        product_sum(ms, i) <= product_sum(ms, j),
        product_sum(ms, i) >= 0,
    decreases j - i, i,
{
    if i < j {
        lemma_product_sum_monotone(ms, i, j - 1);
        lemma_product_sum_monotone(ms, i, i);
        assert(ms[j - 1].0 * ms[j - 1].1 >= 0) by (nonlinear_arith)
            requires
                ms[j - 1].0 >= 0,
                ms[j - 1].1 >= 0,
        ;
    }
    if i > 0 {
        lemma_product_sum_monotone(ms, i - 1, i - 1);
    }
}

proof fn lemma_lines_sum_monotone(lines: Seq<Vec<char>>, i: int, j: int)
    requires
        0 <= i <= j,
        j <= lines.len(),
    ensures
        lines_product_sum(lines, i) <= lines_product_sum(lines, j),
        lines_product_sum(lines, i) >= 0,
    decreases j - i, i,
{
    if i < j {
        lemma_lines_sum_monotone(lines, i, j - 1);
        lemma_lines_sum_monotone(lines, i, i);
        let ms = mul_statements(lines[j - 1]@);
        lemma_muls_bounded(lines[j - 1]@, 0, (lines[j - 1]@.len() + 1) as nat);
        lemma_product_sum_monotone(ms, 0, ms.len() as int);
    }
    if i > 0 {
        lemma_lines_sum_monotone(lines, i - 1, i - 1);
        let ms = mul_statements(lines[i - 1]@);
        lemma_muls_bounded(lines[i - 1]@, 0, (lines[i - 1]@.len() + 1) as nat);
        lemma_product_sum_monotone(ms, 0, ms.len() as int);
    }
}

/// The sum of the products of every instruction in the lines.
pub fn sum_products(lines: &Vec<Vec<char>>) -> (r: u64)
    requires
        lines_product_sum(lines@, lines@.len() as int) <= u64::MAX,
    ensures
        r == lines_product_sum(lines@, lines@.len() as int),
{
    let mut sum: u64 = 0;
    let mut y: usize = 0;
    while y < lines.len()
        invariant
            y <= lines@.len(),
            sum == lines_product_sum(lines@, y as int),
            lines_product_sum(lines@, lines@.len() as int) <= u64::MAX,
        decreases lines@.len() - y,
    {
        let pairs = parse_mul_statements(&lines[y]);
        let mut k: usize = 0;
        let ghost line_spec = mul_statements(lines@[y as int]@);
        proof {
            lemma_muls_bounded(lines@[y as int]@, 0, (lines@[y as int]@.len() + 1) as nat);
        }
        while k < pairs.len()
            invariant
                y < lines@.len(),
                k <= pairs@.len(),
                pairs@.len() == line_spec.len(),
                line_spec == mul_statements(lines@[y as int]@),
                forall|kk: int|
                    0 <= kk < line_spec.len() ==> 0 <= (#[trigger] line_spec[kk]).0 <= 999 && 0
                        <= line_spec[kk].1 <= 999,
                forall|kk: int|
                    0 <= kk < pairs@.len() ==> ((#[trigger] pairs@[kk]).0 as int,
                    pairs@[kk].1 as int) == line_spec[kk],
                sum == lines_product_sum(lines@, y as int) + product_sum(line_spec, k as int),
                lines_product_sum(lines@, lines@.len() as int) <= u64::MAX,
            decreases pairs@.len() - k,
        {
            proof {
                lemma_product_sum_monotone(line_spec, k + 1, line_spec.len() as int);
                lemma_lines_sum_monotone(lines@, y + 1, lines@.len() as int);
                lemma_lines_sum_monotone(lines@, 0, y as int);
                assert(lines_product_sum(lines@, y + 1) == lines_product_sum(lines@, y as int)
                    + product_sum(line_spec, line_spec.len() as int));
            }
            let (a, b) = pairs[k];
            proof {
                assert((a as int, b as int) == line_spec[k as int]);
                assert(a <= 999 && b <= 999);
            }
            let prod = a * b;
            sum = sum + prod;
            k += 1;
        }
        proof {
            assert(lines_product_sum(lines@, y + 1) == lines_product_sum(lines@, y as int)
                + product_sum(line_spec, line_spec.len() as int));
        }
        y += 1;
    }
    sum
}

} // verus!
