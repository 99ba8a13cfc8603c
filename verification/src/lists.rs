use vstd::prelude::*;
use vstd::relations::sorted_by;
use vstd::seq_lib::lemma_sorted_unique;

verus! {

/// The nondecreasing rearrangement of a sequence.
pub open spec fn sorted_of(s: Seq<u64>) -> Seq<u64> {
    s.sort_by(|x: u64, y: u64| x <= y)
}

pub open spec fn abs_diff_spec(a: u64, b: u64) -> int {
    if a >= b {
        a - b
    } else {
        b - a
    }
}

/// Sum of the componentwise distances of the first n pairs of two sequences.
pub open spec fn diff_sum(a: Seq<u64>, b: Seq<u64>, n: int) -> int
    decreases n,
{
    if n <= 0 {
        0
    } else {
        diff_sum(a, b, n - 1) + abs_diff_spec(a[n - 1], b[n - 1])
    }
}

/// How many entries of s equal v.
pub open spec fn count_val(s: Seq<u64>, v: u64) -> int
    decreases s.len(),
{
    if s.len() == 0 {
        0
    } else {
        count_val(s.drop_last(), v) + if s.last() == v {
            1int
        } else {
            0int
        }
    }
}

/// The similarity of the first n entries of a against b: each value of a,
/// counted once at its first occurrence, weighted by its multiplicity in b.
pub open spec fn similarity(a: Seq<u64>, b: Seq<u64>, n: int) -> int
    decreases n,
{
    if n <= 0 {
        0
    } else {
        similarity(a, b, n - 1) + if a.take(n - 1).contains(a[n - 1]) {
            0int
        } else {
            a[n - 1] * count_val(b, a[n - 1])
        }
    }
}

proof fn lemma_count_val_nonneg(s: Seq<u64>, v: u64)
    ensures
        count_val(s, v) >= 0,
    decreases s.len(),
{
    if s.len() > 0 {
        lemma_count_val_nonneg(s.drop_last(), v);
    }
}

proof fn lemma_similarity_monotonic(a: Seq<u64>, b: Seq<u64>, i: int, j: int)
    requires
        0 <= i <= j,
    ensures
        similarity(a, b, i) <= similarity(a, b, j),
    decreases j - i,
{
    if i < j {
        lemma_similarity_monotonic(a, b, i, j - 1);
        lemma_count_val_nonneg(b, a[j - 1]);
        assert(a[j - 1] * count_val(b, a[j - 1]) >= 0) by (nonlinear_arith)
            requires
                count_val(b, a[j - 1]) >= 0,
        ;
    }
}

proof fn lemma_diff_sum_monotonic(a: Seq<u64>, b: Seq<u64>, i: int, j: int)
    requires
        0 <= i <= j,
    ensures
        diff_sum(a, b, i) <= diff_sum(a, b, j),
    decreases j - i,
{
    if i < j {
        lemma_diff_sum_monotonic(a, b, i, j - 1);
    }
}

/// How many entries of b equal v, counted by a scan.
fn count_occurrences(b: &Vec<u64>, v: u64) -> (r: u64)
    requires
        b@.len() <= u64::MAX,
    ensures
        r == count_val(b@, v),
{
    let mut cnt: u64 = 0;
    let mut j: usize = 0;
    while j < b.len()
        invariant
            0 <= j <= b@.len(),
            b@.len() <= u64::MAX,
            cnt == count_val(b@.take(j as int), v),
            cnt <= j,
        decreases b@.len() - j,
    {
        proof {
            assert(b@.take(j + 1).drop_last() =~= b@.take(j as int));
            assert(b@.take(j + 1).last() == b@[j as int]);
        }
        if b[j] == v {
            cnt += 1;
        }
        j += 1;
    }
    proof {
        assert(b@.take(b@.len() as int) =~= b@);
    }
    cnt
}

/// True when v occurs among the first n entries of a.
fn contains_in_prefix(a: &Vec<u64>, n: usize, v: u64) -> (r: bool)
    requires
        n <= a@.len(),
    ensures
        r == a@.take(n as int).contains(v),
{
    let mut j: usize = 0;
    while j < n
        invariant
            0 <= j <= n <= a@.len(),
            forall|k: int| 0 <= k < j ==> a@[k] != v,
        decreases n - j,
    {
        if a[j] == v {
            assert(a@.take(n as int)[j as int] == v);
            return true;
        }
        j += 1;
    }
    assert(!a@.take(n as int).contains(v)) by {
        if a@.take(n as int).contains(v) {
            let k = choose|k: int| 0 <= k < n && a@.take(n as int)[k] == v;
            assert(a@[k] == v);
        }
    }
    false
}

/// Sum, over the distinct values of a, of the value times its multiplicity
/// in b.
pub fn calculate_similarity(a: Vec<u64>, b: Vec<u64>) -> (r: u64)
    requires
        b@.len() <= u64::MAX,
        similarity(a@, b@, a@.len() as int) <= u64::MAX,
    ensures
        r == similarity(a@, b@, a@.len() as int),
{
    let mut sum: u64 = 0;
    let mut i: usize = 0;
    while i < a.len()
        invariant
            0 <= i <= a@.len(),
            b@.len() <= u64::MAX,
            similarity(a@, b@, a@.len() as int) <= u64::MAX,
            sum == similarity(a@, b@, i as int),
        decreases a@.len() - i,
    {
        proof {
            lemma_similarity_monotonic(a@, b@, i + 1, a@.len() as int);
        }
        if !contains_in_prefix(&a, i, a[i]) {
            let cnt = count_occurrences(&b, a[i]);
            proof {
                lemma_count_val_nonneg(b@, a@[i as int]);
                assert(sum + a@[i as int] * count_val(b@, a@[i as int]) == similarity(
                    a@,
                    b@,
                    i + 1,
                ));
            }
            sum = sum + a[i] * cnt;
        }
        i += 1;
    }
    sum
}

/// Insert v into a sorted vector, keeping it sorted.
fn insert_sorted(r: &mut Vec<u64>, v: u64)
    requires
        sorted_by(old(r)@, |x: u64, y: u64| x <= y),
    ensures
        sorted_by(final(r)@, |x: u64, y: u64| x <= y),
        final(r)@.to_multiset() == old(r)@.to_multiset().insert(v),
{
    let ghost leq = |x: u64, y: u64| x <= y;
    let mut pos: usize = 0;
    while pos < r.len() && r[pos] <= v
        invariant
            0 <= pos <= r@.len(),
            forall|k: int| 0 <= k < pos ==> r@[k] <= v,
        decreases r@.len() - pos,
    {
        pos += 1;
    }
    let ghost r0 = r@;
    r.insert(pos, v);
    proof {
        broadcast use vstd::seq_lib::group_to_multiset_ensures;

        assert(r@.remove(pos as int) =~= r0);
        assert(r@.remove(pos as int).to_multiset() == r@.to_multiset().remove(r@[pos as int]));
        assert(r@.to_multiset().count(v) >= 1) by {
            assert(r@[pos as int] == v);
            assert(r@.contains(v));
        }
        assert(r@.to_multiset() =~= r0.to_multiset().insert(v));
        assert forall|i: int, j: int| 0 <= i < j < r@.len() implies leq(r@[i], r@[j]) by {
            if j < pos {
            } else if i < pos && j == pos {
            } else if i == pos {
                assert(r@[j] == r0[j - 1]);
                if pos < r0.len() {
                    assert(!(r0[pos as int] <= v));
                    assert(leq(r0[pos as int], r0[j - 1]));
                }
            } else if i < pos {
                assert(r@[j] == r0[j - 1]);
                assert(leq(r0[i], r0[j - 1]));
            } else {
                assert(r@[i] == r0[i - 1] && r@[j] == r0[j - 1]);
                assert(leq(r0[i - 1], r0[j - 1]));
            }
        }
        assert(sorted_by(r@, |x: u64, y: u64| x <= y));
    }
}

/// The nondecreasing rearrangement of a vector, by insertion sort.
pub fn sort_u64(v: &Vec<u64>) -> (r: Vec<u64>)
    ensures
        r@ == sorted_of(v@),
{
    let ghost leq = |x: u64, y: u64| x <= y;
    let mut r: Vec<u64> = Vec::new();
    let mut i: usize = 0;
    proof {
        broadcast use vstd::seq_lib::group_to_multiset_ensures;

    }
    while i < v.len()
        invariant
            0 <= i <= v@.len(),
            sorted_by(r@, |x: u64, y: u64| x <= y),
            r@.to_multiset() == v@.take(i as int).to_multiset(),
        decreases v@.len() - i,
    {
        proof {
            broadcast use vstd::seq_lib::group_to_multiset_ensures;

            assert(v@.take(i + 1).drop_last() =~= v@.take(i as int));
            assert(v@.take(i + 1) =~= v@.take(i as int).push(v@[i as int]));
        }
        insert_sorted(&mut r, v[i]);
        i += 1;
    }
    proof {
        assert(v@.take(v@.len() as int) =~= v@);
        v@.lemma_sort_by_ensures(|x: u64, y: u64| x <= y);
        lemma_sorted_unique(r@, sorted_of(v@), |x: u64, y: u64| x <= y);
        assert(r@ =~= sorted_of(v@));
    }
    r
}

/// Total distance between the two lists after sorting each: the sum of
/// |a_i - b_i| over the positions both sorted lists share.
pub fn calculate_total_diff(a: Vec<u64>, b: Vec<u64>) -> (r: u64)
    requires
        diff_sum(
            sorted_of(a@),
            sorted_of(b@),
            vstd::math::min(a@.len() as int, b@.len() as int),
        ) <= u64::MAX,
    ensures
        r == diff_sum(
            sorted_of(a@),
            sorted_of(b@),
            vstd::math::min(a@.len() as int, b@.len() as int),
        ),
{
    let sa = sort_u64(&a);
    let sb = sort_u64(&b);
    proof {
        broadcast use vstd::seq_lib::group_to_multiset_ensures;

        a@.lemma_sort_by_ensures(|x: u64, y: u64| x <= y);
        b@.lemma_sort_by_ensures(|x: u64, y: u64| x <= y);
        assert(sa@.to_multiset() == a@.to_multiset());
        assert(sa@.to_multiset().len() == sa@.len());
        assert(a@.to_multiset().len() == a@.len());
        assert(sb@.to_multiset() == b@.to_multiset());
        assert(sb@.to_multiset().len() == sb@.len());
        assert(b@.to_multiset().len() == b@.len());
    }
    let n = if sa.len() <= sb.len() {
        sa.len()
    } else {
        sb.len()
    };
    let mut sum: u64 = 0;
    let mut i: usize = 0;
    while i < n
        invariant
            0 <= i <= n,
            n == vstd::math::min(sa@.len() as int, sb@.len() as int),
            sum == diff_sum(sa@, sb@, i as int),
            diff_sum(sa@, sb@, n as int) <= u64::MAX,
        decreases n - i,
    {
        proof {
            lemma_diff_sum_monotonic(sa@, sb@, i + 1, n as int);
        }
        let d = if sa[i] >= sb[i] {
            sa[i] - sb[i]
        } else {
            sb[i] - sa[i]
        };
        sum = sum + d;
        i += 1;
    }
    sum
}

} // verus!
