use vstd::prelude::*;
use crate::coords::{trunc_div, Coordinates};
use crate::coords::lemma_trunc_div_in_i64_range;

verus! {

pub const COST_BUTTON_A: u64 = 3;

pub const COST_BUTTON_B: u64 = 1;

/// One claw machine: two button step vectors and the prize position.
#[derive(Clone, Copy, PartialEq, Eq, Debug, Structural)]
pub struct Machine {
    pub a_rel_move: Coordinates,
    pub b_rel_move: Coordinates,
    pub prize: Coordinates,
}

/// Ranges under which the linear algebra below stays inside an i64.
pub open spec fn machine_in_range(m: Machine) -> bool {
    &&& 0 <= m.a_rel_move.x <= 10000
    &&& 0 <= m.a_rel_move.y <= 10000
    &&& 0 <= m.b_rel_move.x <= 10000
    &&& 0 <= m.b_rel_move.y <= 10000
    &&& 0 <= m.prize.x <= 100000000000000
    &&& 0 <= m.prize.y <= 100000000000000
}

pub open spec fn det_spec(m: Machine) -> int {
    m.a_rel_move.x * m.b_rel_move.y - m.b_rel_move.x * m.a_rel_move.y
}

pub open spec fn num_a_spec(m: Machine) -> int {
    m.b_rel_move.y * m.prize.x - m.b_rel_move.x * m.prize.y
}

pub open spec fn num_b_spec(m: Machine) -> int {
    m.a_rel_move.x * m.prize.y - m.a_rel_move.y * m.prize.x
}

/// The candidate button counts by Cramer's rule, rounded towards zero.
pub open spec fn cramer_a(m: Machine) -> int {
    trunc_div(num_a_spec(m), det_spec(m))
}

pub open spec fn cramer_b(m: Machine) -> int {
    trunc_div(num_b_spec(m), det_spec(m))
}

/// The rounded candidate exactly reaches the prize with whole, non-negative
/// button presses.
pub open spec fn machine_solvable(m: Machine) -> bool {
    let a = cramer_a(m);
    let b = cramer_b(m);
    &&& m.prize.x == m.a_rel_move.x * a + m.b_rel_move.x * b
    &&& m.prize.y == m.a_rel_move.y * a + m.b_rel_move.y * b
    &&& a >= 0
    &&& b >= 0
}

/// Button presses (a, b) that reach the prize, when the rounded Cramer
/// candidate does so with non-negative counts.
pub fn min_price_steps(machine: &Machine) -> (r: Option<(u64, u64)>)
    requires
        machine_in_range(*machine),
        det_spec(*machine) != 0,
    ensures
        machine_solvable(*machine) ==> r == Some(
            (cramer_a(*machine) as u64, cramer_b(*machine) as u64),
        ),
        !machine_solvable(*machine) ==> r is None,
        r is Some ==> machine.prize.x == machine.a_rel_move.x * (r.unwrap().0 as int)
            + machine.b_rel_move.x * (r.unwrap().1 as int) && machine.prize.y == machine.a_rel_move.y
            * (r.unwrap().0 as int) + machine.b_rel_move.y * (r.unwrap().1 as int),
{
    let xa = machine.a_rel_move.x;
    let ya = machine.a_rel_move.y;
    let xb = machine.b_rel_move.x;
    let yb = machine.b_rel_move.y;
    let x = machine.prize.x;
    let y = machine.prize.y;
    proof {
        assert(xa * yb <= 100000000 && xb * ya <= 100000000 && xa * yb >= 0 && xb * ya >= 0)
            by (nonlinear_arith)
            requires
                0 <= xa <= 10000,
                0 <= ya <= 10000,
                0 <= xb <= 10000,
                0 <= yb <= 10000,
        ;
        assert(yb * x <= 1000000000000000000 && yb * x >= 0 && xb * y <= 1000000000000000000 && xb
            * y >= 0 && xa * y <= 1000000000000000000 && xa * y >= 0 && ya * x
            <= 1000000000000000000 && ya * x >= 0) by (nonlinear_arith)
            requires
                0 <= xa <= 10000,
                0 <= ya <= 10000,
                0 <= xb <= 10000,
                0 <= yb <= 10000,
                0 <= x <= 100000000000000,
                0 <= y <= 100000000000000,
        ;
    }
    let det = xa * yb - xb * ya;
    let num_a = yb * x - xb * y;
    let num_b = xa * y - ya * x;
    proof {
        lemma_trunc_div_in_i64_range(num_a as int, det as int);
        lemma_trunc_div_in_i64_range(num_b as int, det as int);
    }
    let a = num_a.checked_div(det).unwrap();
    let b = num_b.checked_div(det).unwrap();
    proof {
        assert(a == cramer_a(*machine));
        assert(b == cramer_b(*machine));
        let big = 100000000000000000000000int;
        assert(-big <= (xa as int) * (a as int) <= big && -big <= (xb as int) * (b as int) <= big
            && -big <= (ya as int) * (a as int) <= big && -big <= (yb as int) * (b as int) <= big)
            by (nonlinear_arith)
            requires
                big == 100000000000000000000000int,
                0 <= xa <= 10000,
                0 <= xb <= 10000,
                0 <= ya <= 10000,
                0 <= yb <= 10000,
                -0x8000000000000000 <= a <= 0x7fffffffffffffff,
                -0x8000000000000000 <= b <= 0x7fffffffffffffff,
        ;
    }
    let good_x = (x as i128) == (xa as i128) * (a as i128) + (xb as i128) * (b as i128);
    let good_y = (y as i128) == (ya as i128) * (a as i128) + (yb as i128) * (b as i128);
    if good_x && good_y && a >= 0 && b >= 0 {
        Some((a as u64, b as u64))
    } else {
        None
    }
}

/// Token cost of one machine: 3 per press of A, 1 per press of B, nothing
/// when the prize cannot be reached.
pub open spec fn machine_tokens(m: Machine) -> int {
    if machine_solvable(m) {
        3 * cramer_a(m) + cramer_b(m)
    } else {
        0
    }
}

/// Token cost of the first n machines.
pub open spec fn tokens_spec(ms: Seq<Machine>, n: int) -> int
    decreases n,
{
    if n <= 0 {
        0
    } else {
        tokens_spec(ms, n - 1) + machine_tokens(ms[n - 1])
    }
}

proof fn lemma_tokens_monotonic(ms: Seq<Machine>, i: int, j: int)
    requires
        0 <= i <= j,
        forall|k: int| 0 <= k < j ==> machine_in_range(#[trigger] ms[k]),
    ensures
        tokens_spec(ms, i) <= tokens_spec(ms, j),
    decreases j - i,
{
    if i < j {
        lemma_tokens_monotonic(ms, i, j - 1);
        if machine_solvable(ms[j - 1]) {
            assert(machine_tokens(ms[j - 1]) >= 0);
        }
    }
}

/// Fewest tokens that win every winnable prize: each solvable machine costs
/// three tokens per A press and one per B press.
pub fn max_prizes_min_tokens(machines: &Vec<Machine>) -> (r: u64)
    requires
        forall|k: int|
            0 <= k < machines@.len() ==> machine_in_range(#[trigger] machines@[k]) && det_spec(
                machines@[k],
            ) != 0,
        tokens_spec(machines@, machines@.len() as int) <= u64::MAX,
    ensures
        r == tokens_spec(machines@, machines@.len() as int),
{
    let mut sum: u64 = 0;
    let mut i: usize = 0;
    while i < machines.len()
        invariant
            i <= machines@.len(),
            forall|k: int|
                0 <= k < machines@.len() ==> machine_in_range(#[trigger] machines@[k]) && det_spec(
                    machines@[k],
                ) != 0,
            tokens_spec(machines@, machines@.len() as int) <= u64::MAX,
            sum == tokens_spec(machines@, i as int),
        decreases machines@.len() - i,
    {
        proof {
            lemma_tokens_monotonic(machines@, i + 1, machines@.len() as int);
            lemma_tokens_monotonic(machines@, 0, i as int);
        }
        match min_price_steps(&machines[i]) {
            Some(p) => {
                let (a_count, b_count) = p;
                proof {
                    assert(machine_tokens(machines@[i as int]) == 3 * (a_count as int) + (
                    b_count as int));
                }
                sum = sum + a_count * COST_BUTTON_A + b_count * COST_BUTTON_B;
            },
            None => {},
        }
        i += 1;
    }
    sum
}

pub const PRIZE_OFFSET: i64 = 10000000000000;

/// The same machines with the prize coordinates raised by the fixed offset.
pub fn apply_offset(machines: &Vec<Machine>) -> (r: Vec<Machine>)
    requires
        forall|k: int|
            0 <= k < machines@.len() ==> 0 <= (#[trigger] machines@[k]).prize.x
                <= 90000000000000 && 0 <= machines@[k].prize.y <= 90000000000000,
    ensures
        r@.len() == machines@.len(),
        forall|k: int|
            0 <= k < machines@.len() ==> (#[trigger] r@[k]) == (Machine {
                a_rel_move: machines@[k].a_rel_move,
                b_rel_move: machines@[k].b_rel_move,
                prize: Coordinates {
                    x: (machines@[k].prize.x + PRIZE_OFFSET) as i64,
                    y: (machines@[k].prize.y + PRIZE_OFFSET) as i64,
                },
            }),
{
    let mut r: Vec<Machine> = Vec::new();
    let mut i: usize = 0;
    while i < machines.len()
        invariant
            i <= machines@.len(),
            r@.len() == i,
            forall|k: int|
                0 <= k < machines@.len() ==> 0 <= (#[trigger] machines@[k]).prize.x
                    <= 90000000000000 && 0 <= machines@[k].prize.y <= 90000000000000,
            forall|k: int|
                0 <= k < i ==> (#[trigger] r@[k]) == (Machine {
                    a_rel_move: machines@[k].a_rel_move,
                    b_rel_move: machines@[k].b_rel_move,
                    prize: Coordinates {
                        x: (machines@[k].prize.x + PRIZE_OFFSET) as i64,
                        y: (machines@[k].prize.y + PRIZE_OFFSET) as i64,
                    },
                }),
        decreases machines@.len() - i,
    {
        let m = machines[i];
        r.push(
            Machine {
                a_rel_move: m.a_rel_move,
                b_rel_move: m.b_rel_move,
                prize: Coordinates { x: m.prize.x + PRIZE_OFFSET, y: m.prize.y + PRIZE_OFFSET },
            },
        );
        i += 1;
    }
    r
}

pub open spec fn is_digit(c: char) -> bool {
    '0' <= c && c <= '9'
}

/// The end of the digit run starting at i: the first position at or after i
/// holding no digit.
pub open spec fn digit_run_end(s: Seq<char>, i: int) -> int
    recommends
        0 <= i <= s.len(),
    decreases s.len() - i when 0 <= i <= s.len()
{
    if i < s.len() && is_digit(s[i]) {
        digit_run_end(s, i + 1)
    } else {
        i
    }
}

/// The number written by the digits s[i..j].
pub open spec fn digits_value(s: Seq<char>, i: int, j: int) -> int
    decreases j - i,
{
    if j <= i {
        0
    } else {
        digits_value(s, i, j - 1) * 10 + (s[j - 1] as u32 - '0' as u32)
    }
}

/// The literal l occurs in s at position at.
pub open spec fn lit_match(s: Seq<char>, at: int, l: Seq<char>) -> bool {
    &&& at >= 0
    &&& at + l.len() <= s.len()
    &&& forall|i: int| 0 <= i < l.len() ==> s[at + i] == #[trigger] l[i]
}

pub(crate) proof fn lemma_digit_run_end_props(s: Seq<char>, i: int)
    requires
        0 <= i <= s.len(),
    ensures
        i <= digit_run_end(s, i) <= s.len(),
        forall|j: int| i <= j < digit_run_end(s, i) ==> is_digit(#[trigger] s[j]),
        digit_run_end(s, i) == s.len() || !is_digit(s[digit_run_end(s, i)]),
    decreases s.len() - i,
{
    if i < s.len() && is_digit(s[i]) {
        lemma_digit_run_end_props(s, i + 1);
    }
}

/// A digit prefix scan that stops on the first non-digit ends exactly at
/// digit_run_end.
pub(crate) proof fn lemma_digit_run_end_of(s: Seq<char>, from: int, i: int)
    requires
        0 <= from <= i <= s.len(),
        forall|j: int| from <= j < i ==> is_digit(#[trigger] s[j]),
        i == s.len() || !is_digit(s[i]),
    ensures
        digit_run_end(s, from) == i,
    decreases i - from,
{
    if from < i {
        lemma_digit_run_end_of(s, from + 1, i);
    }
}

pub(crate) proof fn lemma_digits_value_nonneg(s: Seq<char>, i: int, j: int)
    requires
        forall|jj: int| i <= jj < j ==> is_digit(#[trigger] s[jj]),
    ensures
        digits_value(s, i, j) >= 0,
    decreases j - i,
{
    if j > i {
        lemma_digits_value_nonneg(s, i, j - 1);
    }
}

proof fn lemma_digits_value_monotone(s: Seq<char>, i: int, j1: int, j2: int)
    requires
        i <= j1 <= j2,
        forall|jj: int| i <= jj < j2 ==> is_digit(#[trigger] s[jj]),
    ensures
        digits_value(s, i, j1) <= digits_value(s, i, j2),
    decreases j2 - j1,
{
    if j1 < j2 {
        lemma_digits_value_monotone(s, i, j1, j2 - 1);
        lemma_digits_value_nonneg(s, i, j2 - 1);
        assert(digits_value(s, i, j2) >= digits_value(s, i, j2 - 1));
    }
}

/// Read a run of digits starting at `from`, stopping at the first other
/// character; fails on an empty run or a value over the cap.
fn parse_number(line: &Vec<char>, from: usize, cap: u64) -> (r: Option<(u64, usize)>)
    requires
        from <= line@.len(),
    ensures
        match r {
            Some(v) => {
                let end = digit_run_end(line@, from as int);
                &&& from < end <= line@.len()
                &&& v.1 == end
                &&& v.0 == digits_value(line@, from as int, end)
                &&& v.0 <= cap
            },
            None => {
                let end = digit_run_end(line@, from as int);
                end == from || digits_value(line@, from as int, end) > cap
            },
        },
{
    let llen = line.len();
    let mut i = from;
    let mut val: u64 = 0;
    while i < line.len() && line[i] >= '0' && line[i] <= '9'
        invariant
            from <= i <= line@.len(),
            llen == line@.len(),
            val <= cap,
            forall|j: int| from <= j < i ==> is_digit(#[trigger] line@[j]),
            val == digits_value(line@, from as int, i as int),
        decreases line@.len() - i,
    {
        let d = (line[i] as u32) - ('0' as u32);
        let next = match val.checked_mul(10) {
            Some(v) => match v.checked_add(d as u64) {
                Some(n) => n,
                None => {
                    proof {
                        lemma_overflow_run(line@, from as int, i as int, cap as int);
                    }
                    return None;
                },
            },
            None => {
                proof {
                    lemma_overflow_run(line@, from as int, i as int, cap as int);
                }
                return None;
            },
        };
        if next > cap {
            proof {
                lemma_overflow_run(line@, from as int, i as int, cap as int);
            }
            return None;
        }
        val = next;
        i += 1;
    }
    proof {
        lemma_digit_run_end_of(line@, from as int, i as int);
    }
    if i == from {
        None
    } else {
        Some((val, i))
    }
}

/// If the next digit pushes the value past the cap, the whole run's value is
/// past the cap.
proof fn lemma_overflow_run(s: Seq<char>, from: int, i: int, cap: int)
    requires
        0 <= from <= i < s.len(),
        is_digit(s[i]),
        forall|j: int| from <= j < i ==> is_digit(#[trigger] s[j]),
        digits_value(s, from, i + 1) > cap,
    ensures
        digit_run_end(s, from) == from || digits_value(s, from, digit_run_end(s, from)) > cap,
{
    lemma_digit_run_end_props(s, from);
    let end = digit_run_end(s, from);
    assert(end >= i + 1) by {
        if end <= i {
            assert(is_digit(s[end]));
        }
    }
    lemma_digits_value_monotone(s, from, i + 1, end);
}

/// Expect the literal at the given position.
pub(crate) fn expect_lit(line: &Vec<char>, at: usize, lit: &[char]) -> (r: Option<usize>)
    requires
        at <= line@.len(),
    ensures
        match r {
            Some(p) => p == at + lit@.len() && lit_match(line@, at as int, lit@),
            None => !lit_match(line@, at as int, lit@),
        },
{
    if lit.len() > line.len() - at {
        return None;
    }
    let llen = line.len();
    let mut i: usize = 0;
    while i < lit.len()
        invariant
            at + lit@.len() <= line@.len(),
            at <= line@.len(),
            llen == line@.len(),
            i <= lit@.len(),
            forall|j: int| 0 <= j < i ==> line@[at + j] == #[trigger] lit@[j],
        decreases lit@.len() - i,
    {
        if line[at + i] != lit[i] {
            proof {
                assert(line@[at + i] != lit@[i as int]);
            }
            return None;
        }
        i += 1;
    }
    Some(at + lit.len())
}

pub open spec fn button_head() -> Seq<char> {
    seq!['B', 'u', 't', 't', 'o', 'n', ' ']
}

pub open spec fn xy_mid() -> Seq<char> {
    seq![':', ' ', 'X', '+']
}

pub open spec fn xy_sep() -> Seq<char> {
    seq![',', ' ', 'Y', '+']
}

pub open spec fn prize_head() -> Seq<char> {
    seq!['P', 'r', 'i', 'z', 'e', ':', ' ', 'X', '=']
}

pub open spec fn prize_sep() -> Seq<char> {
    seq![',', ' ', 'Y', '=']
}

/// Two numbers separated by sep, the second ending the line: the value pair,
/// or None when the line does not have that shape.
pub open spec fn two_num_parse(s: Seq<char>, p2: int, sep: Seq<char>) -> Option<(int, int)> {
    let e1 = digit_run_end(s, p2);
    if e1 == p2 {
        None
    } else if !lit_match(s, e1, sep) {
        None
    } else {
        let p3 = e1 + sep.len();
        let e2 = digit_run_end(s, p3);
        if e2 == p3 || e2 != s.len() {
            None
        } else {
            Some((digits_value(s, p2, e1), digits_value(s, p3, e2)))
        }
    }
}

/// The X and Y amounts of a "Button _: X+n, Y+n" line.
pub open spec fn button_line_parse(s: Seq<char>) -> Option<(int, int)> {
    if !(lit_match(s, 0, button_head()) && s.len() >= 8 && lit_match(s, 8, xy_mid())) {
        None
    } else {
        two_num_parse(s, 12, xy_sep())
    }
}

/// The X and Y coordinates of a "Prize: X=n, Y=n" line.
pub open spec fn prize_line_parse(s: Seq<char>) -> Option<(int, int)> {
    if !lit_match(s, 0, prize_head()) {
        None
    } else {
        two_num_parse(s, 9, prize_sep())
    }
}

/// Read one "Button _: X+n, Y+n" line; amounts above 10000 are refused so
/// that the solver's arithmetic stays in range.
fn parse_button_line(line: &Vec<char>) -> (r: Option<Coordinates>)
    ensures
        r == (match button_line_parse(line@) {
            Some(v) => if 0 <= v.0 <= 10000 && 0 <= v.1 <= 10000 {
                Some(Coordinates { x: v.0 as i64, y: v.1 as i64 })
            } else {
                None::<Coordinates>
            },
            None => None::<Coordinates>,
        }),
{
    let head: [char; 7] = ['B', 'u', 't', 't', 'o', 'n', ' '];
    let mid: [char; 4] = [':', ' ', 'X', '+'];
    let sep: [char; 4] = [',', ' ', 'Y', '+'];
    proof {
        assert(head@ =~= button_head());
        assert(mid@ =~= xy_mid());
        assert(sep@ =~= xy_sep());
    }
    let p = match expect_lit(line, 0, head.as_slice()) {
        Some(p) => p,
        None => {
            return None;
        },
    };
    if p >= line.len() {
        return None;
    }
    let p = p + 1;  // the button name
    let p = match expect_lit(line, p, mid.as_slice()) {
        Some(p) => p,
        None => {
            return None;
        },
    };
    proof {
        lemma_digit_run_end_props(line@, p as int);
    }
    let (x, p) = match parse_number(line, p, 10000) {
        Some(v) => v,
        None => {
            return None;
        },
    };
    let p = match expect_lit(line, p, sep.as_slice()) {
        Some(p) => p,
        None => {
            return None;
        },
    };
    let (y, p) = match parse_number(line, p, 10000) {
        Some(v) => v,
        None => {
            return None;
        },
    };
    if p != line.len() {
        return None;
    }
    Some(Coordinates { x: x as i64, y: y as i64 })
}

/// Read one "Prize: X=n, Y=n" line; coordinates above 90000000000000 are
/// refused so that the solver's arithmetic stays in range.
fn parse_prize_line(line: &Vec<char>) -> (r: Option<Coordinates>)
    ensures
        r == (match prize_line_parse(line@) {
            Some(v) => if 0 <= v.0 <= 90000000000000 && 0 <= v.1 <= 90000000000000 {
                Some(Coordinates { x: v.0 as i64, y: v.1 as i64 })
            } else {
                None::<Coordinates>
            },
            None => None::<Coordinates>,
        }),
{
    let head: [char; 9] = ['P', 'r', 'i', 'z', 'e', ':', ' ', 'X', '='];
    let sep: [char; 4] = [',', ' ', 'Y', '='];
    proof {
        assert(head@ =~= prize_head());
        assert(sep@ =~= prize_sep());
    }
    let p = match expect_lit(line, 0, head.as_slice()) {
        Some(p) => p,
        None => {
            return None;
        },
    };
    let (x, p) = match parse_number(line, p, 90000000000000) {
        Some(v) => v,
        None => {
            return None;
        },
    };
    let p = match expect_lit(line, p, sep.as_slice()) {
        Some(p) => p,
        None => {
            return None;
        },
    };
    let (y, p) = match parse_number(line, p, 90000000000000) {
        Some(v) => v,
        None => {
            return None;
        },
    };
    if p != line.len() {
        return None;
    }
    Some(Coordinates { x: x as i64, y: y as i64 })
}

/// The rows of the input as plain character sequences.
pub open spec fn line_views(ls: Seq<Vec<char>>) -> Seq<Seq<char>> {
    ls.map_values(|v: Vec<char>| v@)
}

/// Lines 4k..4k+4 form one machine: two button lines, a prize line in range,
/// and a blank separator.
pub open spec fn group_ok(ls: Seq<Seq<char>>, k: int) -> bool {
    &&& button_line_parse(ls[4 * k]) matches Some(a) && 0 <= a.0 <= 10000 && 0 <= a.1 <= 10000
    &&& button_line_parse(ls[4 * k + 1]) matches Some(b) && 0 <= b.0 <= 10000 && 0 <= b.1 <= 10000
    &&& prize_line_parse(ls[4 * k + 2]) matches Some(pz) && 0 <= pz.0 <= 90000000000000 && 0 <= pz.1
        <= 90000000000000
    &&& ls[4 * k + 3].len() == 0
}

/// The machine written in lines 4k..4k+3.
pub open spec fn machine_of_group(ls: Seq<Seq<char>>, k: int) -> Machine {
    let a = button_line_parse(ls[4 * k]).unwrap();
    let b = button_line_parse(ls[4 * k + 1]).unwrap();
    let pz = prize_line_parse(ls[4 * k + 2]).unwrap();
    Machine {
        a_rel_move: Coordinates { x: a.0 as i64, y: a.1 as i64 },
        b_rel_move: Coordinates { x: b.0 as i64, y: b.1 as i64 },
        prize: Coordinates { x: pz.0 as i64, y: pz.1 as i64 },
    }
}

/// Read machines from groups of four lines: button A, button B, prize and a
/// blank separator.  A trailing group of fewer than four lines is ignored,
/// as the original's four-line chunking did.
pub fn parse_input(lines: &Vec<Vec<char>>) -> (r: Option<Vec<Machine>>)
    ensures
        r is Some <==> (forall|k: int|
            0 <= k < lines@.len() as int / 4 ==> #[trigger] group_ok(line_views(lines@), k)),
        r is Some ==> r.unwrap()@.len() == lines@.len() as int / 4 && (forall|k: int|
            0 <= k < lines@.len() as int / 4 ==> #[trigger] r.unwrap()@[k] == machine_of_group(
                line_views(lines@),
                k,
            )),
        r is Some ==> forall|k: int|
            0 <= k < r.unwrap()@.len() ==> machine_in_range(#[trigger] r.unwrap()@[k])
                && r.unwrap()@[k].prize.x <= 90000000000000 && r.unwrap()@[k].prize.y
                <= 90000000000000,
{
    let ghost ls = line_views(lines@);
    let mut out: Vec<Machine> = Vec::new();
    let mut i: usize = 0;
    while lines.len() - i >= 4 && i < lines.len()
        invariant
            ls == line_views(lines@),
            i <= lines@.len(),
            i == 4 * out@.len(),
            forall|k: int| 0 <= k < out@.len() ==> #[trigger] group_ok(ls, k),
            forall|k: int| 0 <= k < out@.len() ==> #[trigger] out@[k] == machine_of_group(ls, k),
            forall|k: int|
                0 <= k < out@.len() ==> machine_in_range(#[trigger] out@[k]) && out@[k].prize.x
                    <= 90000000000000 && out@[k].prize.y <= 90000000000000,
        decreases lines@.len() - i,
    {
        let ghost g = out@.len() as int;
        proof {
            assert(4 * g == i);
            assert(g < lines@.len() as int / 4) by {
                vstd::arithmetic::div_mod::lemma_multiply_divide_lt(4 * g, 4, g + 1);
                vstd::arithmetic::div_mod::lemma_div_is_ordered(4 * g + 4, lines@.len() as int, 4);
                assert((4 * (g + 1)) / 4 == g + 1) by {
                    vstd::arithmetic::div_mod::lemma_div_multiples_vanish(g + 1, 4);
                }
            }
        }
        let a = match parse_button_line(&lines[i]) {
            Some(c) => c,
            None => {
                proof {
                    assert(!group_ok(ls, g));
                }
                return None;
            },
        };
        let b = match parse_button_line(&lines[i + 1]) {
            Some(c) => c,
            None => {
                proof {
                    assert(!group_ok(ls, g));
                }
                return None;
            },
        };
        let prize = match parse_prize_line(&lines[i + 2]) {
            Some(c) => c,
            None => {
                proof {
                    assert(!group_ok(ls, g));
                }
                return None;
            },
        };
        if lines[i + 3].len() != 0 {
            proof {
                assert(!group_ok(ls, g));
            }
            return None;
        }
        out.push(Machine { a_rel_move: a, b_rel_move: b, prize });
        proof {
            assert(group_ok(ls, g));
            assert(out@[g] == machine_of_group(ls, g));
        }
        i += 4;
    }
    proof {
        let g = out@.len() as int;
        assert(lines@.len() as int / 4 == g) by {
            vstd::arithmetic::div_mod::lemma_fundamental_div_mod_converse(
                lines@.len() as int,
                4,
                g,
                lines@.len() - 4 * g,
            );
        }
    }
    Some(out)
}

} // verus!
