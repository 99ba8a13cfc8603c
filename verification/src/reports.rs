use vstd::prelude::*;

verus! {

/// Each level strictly increases by at most 3.
pub open spec fn all_increasing(r: Seq<u64>) -> bool {
    forall|i: int| 0 <= i < r.len() - 1 ==> #[trigger] r[i] < r[i + 1] && r[i + 1] - r[i] <= 3
}

/// Each level strictly decreases by at most 3.
pub open spec fn all_decreasing(r: Seq<u64>) -> bool {
    forall|i: int| 0 <= i < r.len() - 1 ==> #[trigger] r[i] > r[i + 1] && r[i] - r[i + 1] <= 3
}

/// A report is safe when its levels move in one direction, never by zero and
/// never by more than 3.
pub open spec fn safe_spec(r: Seq<u64>) -> bool {
    all_increasing(r) || all_decreasing(r)
}

/// A report is tolerably safe when it is safe, or removing one level makes
/// it safe.
pub open spec fn damped_safe_spec(r: Seq<u64>) -> bool {
    safe_spec(r) || exists|i: int| 0 <= i < r.len() && safe_spec(#[trigger] r.remove(i))
}

/// Safety without the dampener: one pass over adjacent pairs.
pub fn is_safe_inner(report: &Vec<u64>) -> (r: bool)
    ensures
        r == safe_spec(report@),
{
    if report.len() < 2 {
        return true;
    }
    let mut all_inc = true;
    let mut all_dec = true;
    let mut i: usize = 0;
    while i < report.len() - 1
        invariant
            report@.len() >= 2,
            0 <= i <= report@.len() - 1,
            all_inc == (forall|k: int|
                0 <= k < i ==> #[trigger] report@[k] < report@[k + 1] && report@[k + 1] - report@[k]
                    <= 3),
            all_dec == (forall|k: int|
                0 <= k < i ==> #[trigger] report@[k] > report@[k + 1] && report@[k] - report@[k + 1]
                    <= 3),
        decreases report@.len() - i,
    {
        let a = report[i];
        let b = report[i + 1];
        if !(a < b && b - a <= 3) {
            all_inc = false;
        }
        if !(a > b && a - b <= 3) {
            all_dec = false;
        }
        i += 1;
    }
    all_inc || all_dec
}

/// Copy of the report without the level at the given position.
fn report_without(report: &Vec<u64>, idx: usize) -> (r: Vec<u64>)
    requires
        idx < report@.len(),
    ensures
        r@ == report@.remove(idx as int),
{
    let mut r: Vec<u64> = Vec::new();
    let mut j: usize = 0;
    while j < report.len()
        invariant
            0 <= j <= report@.len(),
            idx < report@.len(),
            j <= idx ==> r@ == report@.take(j as int),
            j > idx ==> r@ == report@.remove(idx as int).take(j - 1),
        decreases report@.len() - j,
    {
        if j != idx {
            r.push(report[j]);
            proof {
                if j < idx {
                    assert(r@ =~= report@.take(j + 1));
                } else {
                    assert(report@.remove(idx as int).take(j as int) =~= report@.remove(
                        idx as int,
                    ).take(j - 1).push(report@[j as int]));
                }
            }
        } else {
            proof {
                assert(report@.remove(idx as int).take(j as int) =~= report@.take(j as int));
            }
        }
        j += 1;
    }
    proof {
        assert(report@.remove(idx as int).take(report@.len() - 1) =~= report@.remove(idx as int));
    }
    r
}

/// Safety with the dampener: safe as given, or safe after removing one level.
pub fn is_safe(report: &Vec<u64>) -> (r: bool)
    ensures
        r == damped_safe_spec(report@),
{
    if is_safe_inner(report) {
        return true;
    }
    let mut idx: usize = 0;
    while idx < report.len()
        invariant
            0 <= idx <= report@.len(),
            forall|k: int| 0 <= k < idx ==> !safe_spec(#[trigger] report@.remove(k)),
        decreases report@.len() - idx,
    {
        let cleaned = report_without(report, idx);
        if is_safe_inner(&cleaned) {
            return true;
        }
        idx += 1;
    }
    false
}

/// How many of the first n reports are safe without the dampener.
pub open spec fn count_safe(reports: Seq<Vec<u64>>, n: int) -> int
    decreases n,
{
    if n <= 0 {
        0
    } else {
        count_safe(reports, n - 1) + if safe_spec(reports[n - 1]@) {
            1int
        } else {
            0int
        }
    }
}

/// How many of the first n reports are safe with the dampener.
pub open spec fn count_damped_safe(reports: Seq<Vec<u64>>, n: int) -> int
    decreases n,
{
    if n <= 0 {
        0
    } else {
        count_damped_safe(reports, n - 1) + if damped_safe_spec(reports[n - 1]@) {
            1int
        } else {
            0int
        }
    }
}

/// Number of safe reports, without the dampener.
pub fn count_safe_reports(reports: &Vec<Vec<u64>>) -> (r: usize)
    ensures
        r == count_safe(reports@, reports@.len() as int),
{
    let mut cnt: usize = 0;
    let mut i: usize = 0;
    while i < reports.len()
        invariant
            0 <= i <= reports@.len(),
            cnt == count_safe(reports@, i as int),
            cnt <= i,
        decreases reports@.len() - i,
    {
        if is_safe_inner(&reports[i]) {
            cnt += 1;
        }
        i += 1;
    }
    cnt
}

/// Number of safe reports, with the dampener.
pub fn count_damped_safe_reports(reports: &Vec<Vec<u64>>) -> (r: usize)
    ensures
        r == count_damped_safe(reports@, reports@.len() as int),
{
    let mut cnt: usize = 0;
    let mut i: usize = 0;
    while i < reports.len()
        invariant
            0 <= i <= reports@.len(),
            cnt == count_damped_safe(reports@, i as int),
            cnt <= i,
        decreases reports@.len() - i,
    {
        if is_safe(&reports[i]) {
            cnt += 1;
        }
        i += 1;
    }
    cnt
}

} // verus!
