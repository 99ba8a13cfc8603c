use vstd::prelude::*;

verus! {

/// Number of decimal digits of m (one digit for zero).
pub open spec fn num_digits(m: nat) -> nat
    decreases m,
{
    if m < 10 {
        1
    } else {
        1 + num_digits(m / 10)
    }
}

/// Ten to the k-th power.
pub open spec fn pow10(k: nat) -> nat
    decreases k,
{
    if k == 0 {
        1
    } else {
        10 * pow10((k - 1) as nat)
    }
}

/// How many stones one stone with this number becomes after d blinks:
/// 0 becomes 1; an even digit count splits the number in its two halves;
/// anything else is multiplied by 2024.
pub open spec fn stones(m: nat, d: nat) -> nat
    decreases d,
{
    if d == 0 {
        1
    } else if m == 0 {
        stones(1, (d - 1) as nat)
    } else if num_digits(m) % 2 == 0 {
        let half = pow10(num_digits(m) / 2);
        stones(m / half, (d - 1) as nat) + stones(m % half, (d - 1) as nat)
    } else {
        stones(m * 2024, (d - 1) as nat)
    }
}

/// Every multiplication along the d blinks of this stone stays inside a
/// u64.
pub open spec fn stones_ok(m: nat, d: nat) -> bool
    decreases d,
{
    if d == 0 {
        true
    } else if m == 0 {
        stones_ok(1, (d - 1) as nat)
    } else if num_digits(m) % 2 == 0 {
        let half = pow10(num_digits(m) / 2);
        stones_ok(m / half, (d - 1) as nat) && stones_ok(m % half, (d - 1) as nat)
    } else {
        m * 2024 <= u64::MAX && stones_ok(m * 2024, (d - 1) as nat)
    }
}

proof fn lemma_pow10_pos(k: nat)
    ensures
        pow10(k) >= 1,
    decreases k,
{
    if k > 0 {
        lemma_pow10_pos((k - 1) as nat);
    }
}

proof fn lemma_pow10_mono(i: nat, j: nat)
    requires
        i <= j,
    ensures
        pow10(i) <= pow10(j),
    decreases j,
{
    if i < j {
        lemma_pow10_mono(i, (j - 1) as nat);
        lemma_pow10_pos((j - 1) as nat);
    }
}

proof fn lemma_pow10_values()
    ensures
        pow10(10) == 10000000000,
        pow10(20) == 100000000000000000000,
{
    assert(pow10(0) == 1);
    assert(pow10(1) == 10);
    assert(pow10(2) == 100);
    assert(pow10(3) == 1000);
    assert(pow10(4) == 10000);
    assert(pow10(5) == 100000);
    assert(pow10(6) == 1000000);
    assert(pow10(7) == 10000000);
    assert(pow10(8) == 100000000);
    assert(pow10(9) == 1000000000);
    assert(pow10(10) == 10000000000);
    assert(pow10(11) == 100000000000);
    assert(pow10(12) == 1000000000000);
    assert(pow10(13) == 10000000000000);
    assert(pow10(14) == 100000000000000);
    assert(pow10(15) == 1000000000000000);
    assert(pow10(16) == 10000000000000000);
    assert(pow10(17) == 100000000000000000);
    assert(pow10(18) == 1000000000000000000);
    assert(pow10(19) == 10000000000000000000);
    assert(pow10(20) == 100000000000000000000);
}

/// A number below ten to the k has at most k digits.
proof fn lemma_num_digits_below(m: nat, k: nat)
    requires
        k >= 1,
        m < pow10(k),
    ensures
        num_digits(m) <= k,
    decreases k,
{
    if m >= 10 {
        lemma_pow10_pos((k - 1) as nat);
        vstd::arithmetic::div_mod::lemma_multiply_divide_lt(
            m as int,
            10,
            pow10((k - 1) as nat) as int,
        );
        lemma_num_digits_below(m / 10, (k - 1) as nat);
    }
}

/// A memo table for the blink counts: each entry (m, d, c) records that a
/// stone numbered m becomes c stones after d blinks.
pub struct StoneCache {
    pub entries: Vec<(u64, usize, usize)>,
}

impl StoneCache {
    pub open spec fn wf(self) -> bool {
        forall|k: int|
            0 <= k < self.entries@.len() ==> (#[trigger] self.entries@[k]).2 == stones(
                self.entries@[k].0 as nat,
                self.entries@[k].1 as nat,
            )
    }

    pub fn new() -> (r: StoneCache)
        ensures
            r.wf(),
    {
        StoneCache { entries: Vec::new() }
    }

    fn lookup(&self, m: u64, d: usize) -> (r: Option<usize>)
        requires
            self.wf(),
        ensures
            r matches Some(v) ==> v == stones(m as nat, d as nat),
    {
        let mut k: usize = 0;
        while k < self.entries.len()
            invariant
                self.wf(),
            decreases self.entries@.len() - k,
        {
            let e = self.entries[k];
            if e.0 == m && e.1 == d {
                return Some(e.2);
            }
            k += 1;
        }
        None
    }

    fn insert(&mut self, m: u64, d: usize, v: usize)
        requires
            old(self).wf(),
            v == stones(m as nat, d as nat),
        ensures
            final(self).wf(),
    {
        let ghost before = self.entries@;
        self.entries.push((m, d, v));
        proof {
            assert forall|k: int|
                0 <= k < self.entries@.len() implies (#[trigger] self.entries@[k]).2 == stones(
                self.entries@[k].0 as nat,
                self.entries@[k].1 as nat,
            ) by {
                if k < before.len() {
                    assert(self.entries@[k] == before[k]);
                }
            }
        }
    }
}

/// The decimal digit count of a number.
fn count_digits(m: u64) -> (r: u64)
    ensures
        r == num_digits(m as nat),
        1 <= r <= 20,
{
    proof {
        lemma_pow10_values();
        lemma_num_digits_below(m as nat, 20);
    }
    let mut v = m;
    let mut d: u64 = 1;
    while v >= 10
        invariant
            num_digits(m as nat) == d - 1 + num_digits(v as nat),
            d >= 1,
            num_digits(v as nat) >= 1,
            d - 1 + num_digits(v as nat) <= 20,
        decreases v,
    {
        proof {
            assert(num_digits(v as nat) == 1 + num_digits((v / 10) as nat));
        }
        v = v / 10;
        d = d + 1;
    }
    d
}

/// Ten to the k-th power, for k at most ten.
fn pow10_exec(k: u64) -> (r: u64)
    requires
        k <= 10,
    ensures
        r == pow10(k as nat),
        r >= 1,
{
    proof {
        lemma_pow10_values();
    }
    let mut acc: u64 = 1;
    let mut i: u64 = 0;
    while i < k
        invariant
            i <= k <= 10,
            acc == pow10(i as nat),
        decreases k - i,
    {
        proof {
            lemma_pow10_pos(i as nat);
            lemma_pow10_mono((i + 1) as nat, 10);
            lemma_pow10_values();
            assert(pow10((i + 1) as nat) == 10 * pow10(i as nat));
        }
        acc = acc * 10;
        i = i + 1;
    }
    proof {
        lemma_pow10_pos(k as nat);
    }
    acc
}

/// How many stones one stone becomes after n blinks, with a memo table
/// shared between calls.
pub fn num_stones_after_n_iterations(n: usize, number: u64, cache: &mut StoneCache) -> (r: usize)
    requires
        old(cache).wf(),
        stones_ok(number as nat, n as nat),
        stones(number as nat, n as nat) <= usize::MAX,
    ensures
        r == stones(number as nat, n as nat),
        final(cache).wf(),
    decreases n,
{
    if n == 0 {
        return 1;
    }
    match cache.lookup(number, n) {
        Some(v) => {
            return v;
        },
        None => {},
    }
    let r: usize;
    if number == 0 {
        r = num_stones_after_n_iterations(n - 1, 1, cache);
    } else {
        let digits = count_digits(number);
        if digits % 2 == 0 {
            let half = pow10_exec(digits / 2);
            let left = number / half;
            let right = number % half;
            proof {
                assert(left as nat == (number as nat) / pow10(num_digits(number as nat) / 2));
                assert(right as nat == (number as nat) % pow10(num_digits(number as nat) / 2));
            }
            let a = num_stones_after_n_iterations(n - 1, left, cache);
            let b = num_stones_after_n_iterations(n - 1, right, cache);
            r = a + b;
        } else {
            let next = number * 2024;
            r = num_stones_after_n_iterations(n - 1, next, cache);
        }
    }
    cache.insert(number, n, r);
    r
}


/// What one stone becomes after a single blink.
pub open spec fn blink_one(m: u64) -> Seq<u64> {
    if m == 0 {
        seq![1u64]
    } else if num_digits(m as nat) % 2 == 0 {
        let half = pow10(num_digits(m as nat) / 2);
        seq![((m as nat) / half) as u64, ((m as nat) % half) as u64]
    } else {
        seq![((m as nat) * 2024) as u64]
    }
}

/// What the first k stones of a row become after one blink.
pub open spec fn blink_row(s: Seq<u64>, k: int) -> Seq<u64>
    decreases k,
{
    if k <= 0 {
        Seq::empty()
    } else {
        blink_row(s, k - 1) + blink_one(s[k - 1])
    }
}

/// No multiplication of this row's blink leaves a u64.
pub open spec fn row_ok(s: Seq<u64>) -> bool {
    forall|j: int|
        0 <= j < s.len() && (#[trigger] s[j]) != 0 && num_digits(s[j] as nat) % 2 != 0 ==> (
        s[j] as nat) * 2024 <= u64::MAX
}

/// One blink of the whole row.
pub fn apply_rules(numbers: Vec<u64>) -> (r: Vec<u64>)
    requires
        row_ok(numbers@),
    ensures
        r@ == blink_row(numbers@, numbers@.len() as int),
{
    let mut out: Vec<u64> = Vec::new();
    let mut j: usize = 0;
    while j < numbers.len()
        invariant
            row_ok(numbers@),
            j <= numbers@.len(),
            out@ == blink_row(numbers@, j as int),
        decreases numbers@.len() - j,
    {
        let m = numbers[j];
        let ghost before = out@;
        if m == 0 {
            out.push(1);
            proof {
                assert(out@ =~= before + blink_one(m));
            }
        } else {
            let digits = count_digits(m);
            if digits % 2 == 0 {
                let half = pow10_exec(digits / 2);
                let left = m / half;
                let right = m % half;
                out.push(left);
                out.push(right);
                proof {
                    assert(left == ((m as nat) / pow10(num_digits(m as nat) / 2)) as u64);
                    assert(right == ((m as nat) % pow10(num_digits(m as nat) / 2)) as u64);
                    assert(out@ =~= before + blink_one(m));
                }
            } else {
                let next = m * 2024;
                out.push(next);
                proof {
                    assert(out@ =~= before + blink_one(m));
                }
            }
        }
        j += 1;
    }
    out
}

/// The row after i whole blinks.
pub open spec fn blink_iter(s: Seq<u64>, i: int) -> Seq<u64>
    decreases i,
{
    if i <= 0 {
        s
    } else {
        blink_row(blink_iter(s, i - 1), blink_iter(s, i - 1).len() as int)
    }
}

/// Every stage of n blinks keeps its multiplications inside a u64.
pub open spec fn iter_ok(s: Seq<u64>, n: int) -> bool {
    forall|j: int| 0 <= j < n ==> row_ok(#[trigger] blink_iter(s, j))
}

/// The row after n whole blinks.
pub fn apply_rules_n_times(numbers: Vec<u64>, n: usize) -> (r: Vec<u64>)
    requires
        iter_ok(numbers@, n as int),
    ensures
        r@ == blink_iter(numbers@, n as int),
{
    let ghost s0 = numbers@;
    let mut cur = numbers;
    let mut i: usize = 0;
    while i < n
        invariant
            iter_ok(s0, n as int),
            i <= n,
            cur@ == blink_iter(s0, i as int),
        decreases n - i,
    {
        proof {
            assert(row_ok(blink_iter(s0, i as int)));
        }
        cur = apply_rules(cur);
        i += 1;
    }
    cur
}

} // verus!
