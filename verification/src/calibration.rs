use vstd::prelude::*;

verus! {

#[derive(Clone, Copy, PartialEq, Eq, Debug, Structural)]
pub enum Operator {
    Add,
    Multiply,
}

/// Left-to-right evaluation of the first k operators over the operands.
pub open spec fn eval_term(operands: Seq<u64>, operators: Seq<Operator>, k: int) -> int
    decreases k,
{
    if k <= 0 {
        operands[0] as int
    } else {
        let prev = eval_term(operands, operators, k - 1);
        match operators[k - 1] {
            Operator::Add => prev + operands[k],
            Operator::Multiply => prev * operands[k],
        }
    }
}

proof fn lemma_eval_nonneg(operands: Seq<u64>, operators: Seq<Operator>, k: int)
    requires
        0 <= k < operands.len(),
    ensures
        eval_term(operands, operators, k) >= 0,
    decreases k,
{
    if k > 0 {
        lemma_eval_nonneg(operands, operators, k - 1);
        match operators[k - 1] {
            Operator::Add => {},
            Operator::Multiply => {
                assert(eval_term(operands, operators, k - 1) * operands[k] >= 0)
                    by (nonlinear_arith)
                    requires
                        eval_term(operands, operators, k - 1) >= 0,
                        operands[k] >= 0,
                ;
            },
        }
    }
}

/// The value of the whole expression, evaluated strictly left to right.
pub fn evaluate_term(operands: &Vec<u64>, operators: &Vec<Operator>) -> (r: u64)
    requires
        operands@.len() == operators@.len() + 1,
        forall|k: int|
            0 <= k <= operators@.len() ==> #[trigger] eval_term(operands@, operators@, k)
                <= u64::MAX,
    ensures
        r == eval_term(operands@, operators@, operators@.len() as int),
{
    let mut acc = operands[0];
    let mut i: usize = 0;
    while i < operators.len()
        invariant
            operands@.len() == operators@.len() + 1,
            forall|k: int|
                0 <= k <= operators@.len() ==> #[trigger] eval_term(operands@, operators@, k)
                    <= u64::MAX,
            i <= operators@.len(),
            acc == eval_term(operands@, operators@, i as int),
        decreases operators@.len() - i,
    {
        proof {
            lemma_eval_nonneg(operands@, operators@, i as int);
            assert(eval_term(operands@, operators@, i + 1) <= u64::MAX);
        }
        match operators[i] {
            Operator::Add => {
                acc = acc + operands[i + 1];
            },
            Operator::Multiply => {
                acc = acc * operands[i + 1];
            },
        }
        i += 1;
    }
    acc
}

/// The remaining operators drive the running value `acc` through the
/// operands from position idx on, never overflowing, and end on the target.
pub open spec fn suffix_hits(
    operands: Seq<u64>,
    idx: int,
    acc: u64,
    sfx: Seq<Operator>,
    target: u64,
) -> bool
    decreases sfx.len(),
{
    if sfx.len() == 0 {
        acc == target
    } else {
        let v = match sfx[0] {
            Operator::Add => acc + operands[idx],
            Operator::Multiply => acc * operands[idx],
        };
        v <= u64::MAX && suffix_hits(operands, idx + 1, v as u64, sfx.drop_first(), target)
    }
}

/// An operator choice that evaluates the whole line to the target, with
/// every intermediate value inside a u64.
pub open spec fn combo_hits(operands: Seq<u64>, ops: Seq<Operator>, target: u64) -> bool {
    &&& ops.len() == operands.len() - 1
    &&& suffix_hits(operands, 1, operands[0], ops, target)
}

/// Search the remaining positions for a working operator suffix.
fn search(operands: &Vec<u64>, target: u64, idx: usize, acc: u64) -> (r: Option<Vec<Operator>>)
    requires
        1 <= idx <= operands@.len(),
    ensures
        match r {
            Some(sfx) => sfx@.len() == operands@.len() - idx && suffix_hits(
                operands@,
                idx as int,
                acc,
                sfx@,
                target,
            ),
            None => forall|sfx: Seq<Operator>|
                sfx.len() == operands@.len() - idx ==> !suffix_hits(
                    operands@,
                    idx as int,
                    acc,
                    sfx,
                    target,
                ),
        },
    decreases operands@.len() - idx,
{
    if idx == operands.len() {
        if acc == target {
            let empty: Vec<Operator> = Vec::new();
            return Some(empty);
        } else {
            proof {
                assert forall|sfx: Seq<Operator>|
                    sfx.len() == operands@.len() - idx implies !suffix_hits(
                    operands@,
                    idx as int,
                    acc,
                    sfx,
                    target,
                ) by {
                    assert(sfx.len() == 0);
                }
            }
            return None;
        }
    }
    let x = operands[idx];
    let av = acc.checked_add(x);
    let add_hit: Option<Vec<Operator>> = match av {
        Some(v) => search(operands, target, idx + 1, v),
        None => None,
    };
    match add_hit {
        Some(sfx) => {
            let mut out: Vec<Operator> = Vec::new();
            out.push(Operator::Add);
            let mut rest = sfx;
            let ghost restv = rest@;
            out.append(&mut rest);
            proof {
                assert(out@ == seq![Operator::Add] + restv);
                assert(out@[0] == Operator::Add);
                assert(out@.drop_first() =~= restv);
            }
            return Some(out);
        },
        None => {},
    }
    let mv = acc.checked_mul(x);
    let mul_hit: Option<Vec<Operator>> = match mv {
        Some(v) => search(operands, target, idx + 1, v),
        None => None,
    };
    match mul_hit {
        Some(sfx) => {
            let mut out: Vec<Operator> = Vec::new();
            out.push(Operator::Multiply);
            let mut rest = sfx;
            let ghost restv = rest@;
            out.append(&mut rest);
            proof {
                assert(out@ == seq![Operator::Multiply] + restv);
                assert(out@[0] == Operator::Multiply);
                assert(out@.drop_first() =~= restv);
            }
            return Some(out);
        },
        None => {},
    }
    proof {
        assert forall|sfx: Seq<Operator>|
            sfx.len() == operands@.len() - idx implies !suffix_hits(
            operands@,
            idx as int,
            acc,
            sfx,
            target,
        ) by {
            if suffix_hits(operands@, idx as int, acc, sfx, target) {
                assert(sfx.len() > 0);
                assert(sfx.drop_first().len() == operands@.len() - (idx + 1));
                match sfx[0] {
                    Operator::Add => {
                        assert(acc + operands@[idx as int] <= u64::MAX);
                        assert(av == Some((acc + operands@[idx as int]) as u64));
                        assert(suffix_hits(
                            operands@,
                            idx + 1,
                            av.unwrap(),
                            sfx.drop_first(),
                            target,
                        ));
                        assert(false);
                    },
                    Operator::Multiply => {
                        assert(acc * operands@[idx as int] <= u64::MAX);
                        assert(mv == Some((acc * operands@[idx as int]) as u64));
                        assert(suffix_hits(
                            operands@,
                            idx + 1,
                            mv.unwrap(),
                            sfx.drop_first(),
                            target,
                        ));
                        assert(false);
                    },
                }
            }
        }
    }
    None
}

/// The first operator assignment (plus before times, tried left to right)
/// that evaluates the line to the target; None when no assignment does.
pub fn find_valid_operator_combination(operands: &Vec<u64>, target: u64) -> (r: Option<
    Vec<Operator>,
>)
    requires
        operands@.len() >= 1,
    ensures
        match r {
            Some(ops) => combo_hits(operands@, ops@, target),
            None => forall|ops: Seq<Operator>|
                ops.len() == operands@.len() - 1 ==> !#[trigger] combo_hits(operands@, ops, target),
        },
{
    search(operands, target, 1, operands[0])
}

/// Sum of the targets of the lines some operator assignment can reach.
pub open spec fn calibration_sum(lines: Seq<(u64, Vec<u64>)>, n: int) -> int
    decreases n,
{
    if n <= 0 {
        0
    } else {
        calibration_sum(lines, n - 1) + (if lines[n - 1].1@.len() >= 1 && exists|ops: Seq<Operator>|
            #[trigger] combo_hits(lines[n - 1].1@, ops, lines[n - 1].0) {
            lines[n - 1].0 as int
        } else {
            0int
        })
    }
}

/// Add up every target that some combination of plus and times reaches.
pub fn sum_valid_results(lines: &Vec<(u64, Vec<u64>)>) -> (r: u64)
    requires
        forall|k: int| 0 <= k < lines@.len() ==> (#[trigger] lines@[k]).1@.len() >= 1,
        calibration_sum(lines@, lines@.len() as int) <= u64::MAX,
    ensures
        r == calibration_sum(lines@, lines@.len() as int),
{
    let mut sum: u64 = 0;
    let mut k: usize = 0;
    while k < lines.len()
        invariant
            forall|kk: int| 0 <= kk < lines@.len() ==> (#[trigger] lines@[kk]).1@.len() >= 1,
            calibration_sum(lines@, lines@.len() as int) <= u64::MAX,
            k <= lines@.len(),
            sum == calibration_sum(lines@, k as int),
        decreases lines@.len() - k,
    {
        proof {
            lemma_calibration_monotone(lines@, k + 1, lines@.len() as int);
            lemma_calibration_monotone(lines@, 0, k as int);
        }
        let (target, operands) = &lines[k];
        match find_valid_operator_combination(operands, *target) {
            Some(ops) => {
                proof {
                    let opsv = ops@;
                    assert(combo_hits(lines@[k as int].1@, opsv, lines@[k as int].0));
                    assert(exists|o: Seq<Operator>|
                        #[trigger] combo_hits(lines@[k as int].1@, o, lines@[k as int].0));
                }
                sum = sum + *target;
            },
            None => {
                proof {
                    if exists|o: Seq<Operator>|
                        #[trigger] combo_hits(lines@[k as int].1@, o, lines@[k as int].0) {
                        let o = choose|o: Seq<Operator>|
                            #[trigger] combo_hits(lines@[k as int].1@, o, lines@[k as int].0);
                        assert(!combo_hits(lines@[k as int].1@, o, lines@[k as int].0));
                    }
                }
            },
        }
        k += 1;
    }
    sum
}

proof fn lemma_calibration_monotone(lines: Seq<(u64, Vec<u64>)>, i: int, j: int)
    requires
        0 <= i <= j,
    ensures
        calibration_sum(lines, i) <= calibration_sum(lines, j),
        calibration_sum(lines, i) >= 0,
    decreases j - i, i,
{
    if i < j {
        lemma_calibration_monotone(lines, i, j - 1);
        lemma_calibration_monotone(lines, i, i);
    }
    if i > 0 {
        lemma_calibration_monotone(lines, i - 1, i - 1);
    }
}

} // verus!
