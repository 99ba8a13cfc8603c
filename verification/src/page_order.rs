use vstd::prelude::*;

verus! {

/// The page ordering rules, kept as the list of (before, after) pairs they
/// were read from.
pub struct PrecedenceRules {
    pub pairs: Vec<(u64, u64)>,
}

impl PrecedenceRules {
    /// The rule "a must come before b" exists.
    pub open spec fn requires_before(self, a: u64, b: u64) -> bool {
        self.pairs@.contains((a, b))
    }

    /// Does a rule demand a before b?
    pub fn demands_before(&self, a: u64, b: u64) -> (r: bool)
        ensures
            r == self.requires_before(a, b),
    {
        let mut k: usize = 0;
        while k < self.pairs.len()
            invariant
                k <= self.pairs@.len(),
                forall|j: int| 0 <= j < k ==> #[trigger] self.pairs@[j] != (a, b),
            decreases self.pairs@.len() - k,
        {
            let p = self.pairs[k];
            if p.0 == a && p.1 == b {
                proof {
                    assert(self.pairs@[k as int] == (a, b));
                }
                return true;
            }
            k += 1;
        }
        proof {
            if self.pairs@.contains((a, b)) {
                let j = choose|j: int|
                    0 <= j < self.pairs@.len() && self.pairs@[j] == (a, b);
                assert(false);
            }
        }
        false
    }
}

/// Collect the ordering rules into a lookup structure.
pub fn precedence_map(rules: Vec<(u64, u64)>) -> (r: PrecedenceRules)
    ensures
        r.pairs@ == rules@,
{
    PrecedenceRules { pairs: rules }
}

/// An ordering is valid when no rule is violated: no page is followed by a
/// page that a rule demands before it.
pub open spec fn ordering_valid(ord: Seq<u64>, rules: PrecedenceRules) -> bool {
    forall|i: int, j: int|
        0 <= i < j < ord.len() ==> !rules.requires_before(#[trigger] ord[j], #[trigger] ord[i])
}

pub fn is_ordering_valid(ordering: &Vec<u64>, rules: &PrecedenceRules) -> (r: bool)
    ensures
        r == ordering_valid(ordering@, *rules),
{
    let mut i: usize = 0;
    while i < ordering.len()
        invariant
            i <= ordering@.len(),
            forall|ii: int, jj: int|
                0 <= ii < jj < ordering@.len() && ii < i ==> !rules.requires_before(
                    #[trigger] ordering@[jj],
                    #[trigger] ordering@[ii],
                ),
        decreases ordering@.len() - i,
    {
        let mut j: usize = i + 1;
        while j < ordering.len()
            invariant
                i < ordering@.len(),
                i + 1 <= j <= ordering@.len(),
                forall|ii: int, jj: int|
                    0 <= ii < jj < ordering@.len() && ii < i ==> !rules.requires_before(
                        #[trigger] ordering@[jj],
                        #[trigger] ordering@[ii],
                    ),
                forall|jj: int|
                    i < jj < j ==> !rules.requires_before(
                        #[trigger] ordering@[jj],
                        ordering@[i as int],
                    ),
            decreases ordering@.len() - j,
        {
            if rules.demands_before(ordering[j], ordering[i]) {
                return false;
            }
            j += 1;
        }
        i += 1;
    }
    true
}

/// Sum of the middle pages of the valid orderings.
pub open spec fn middle_sum(orderings: Seq<Vec<u64>>, rules: PrecedenceRules, n: int) -> int
    decreases n,
{
    if n <= 0 {
        0
    } else {
        middle_sum(orderings, rules, n - 1) + (if orderings[n - 1]@.len() > 0 && ordering_valid(
            orderings[n - 1]@,
            rules,
        ) {
            orderings[n - 1]@[orderings[n - 1]@.len() as int / 2] as int
        } else {
            0
        })
    }
}

/// Add up the middle page of every valid, non-empty ordering.
pub fn sum_valid_middles(orderings: &Vec<Vec<u64>>, rules: &PrecedenceRules) -> (r: u64)
    requires
        middle_sum(orderings@, *rules, orderings@.len() as int) <= u64::MAX,
    ensures
        r == middle_sum(orderings@, *rules, orderings@.len() as int),
{
    proof {
        lemma_middle_sum_monotone(orderings@, *rules, 0, orderings@.len() as int);
    }
    let mut sum: u64 = 0;
    let mut k: usize = 0;
    while k < orderings.len()
        invariant
            k <= orderings@.len(),
            sum == middle_sum(orderings@, *rules, k as int),
            middle_sum(orderings@, *rules, orderings@.len() as int) <= u64::MAX,
        decreases orderings@.len() - k,
    {
        proof {
            lemma_middle_sum_monotone(orderings@, *rules, k + 1, orderings@.len() as int);
            lemma_middle_sum_monotone(orderings@, *rules, 0, k as int);
        }
        let ord = &orderings[k];
        if ord.len() > 0 && is_ordering_valid(ord, rules) {
            sum = sum + ord[ord.len() / 2];
        }
        k += 1;
    }
    sum
}

proof fn lemma_middle_sum_monotone(
    orderings: Seq<Vec<u64>>,
    rules: PrecedenceRules,
    i: int,
    j: int,
)
    requires
        0 <= i <= j,
    ensures
        middle_sum(orderings, rules, i) <= middle_sum(orderings, rules, j),
        middle_sum(orderings, rules, i) >= 0,
    decreases j - i, i,
{
    if i < j {
        lemma_middle_sum_monotone(orderings, rules, i, j - 1);
        lemma_middle_sum_monotone(orderings, rules, i, i);
    }
    if i > 0 {
        lemma_middle_sum_monotone(orderings, rules, i - 1, i - 1);
    }
}

} // verus!
