//! Amplifier chains: several machines on one program, each primed with a
//! phase setting, passing outputs along in series or in a feedback loop.
use itertools::Itertools;
use vstd::prelude::*;

use crate::machine::{initial_model, Machine};
use crate::semantics::{drain, lemma_step_follows_execution, run, Fault, MachineModel, MEMORY_LIMIT};

verus! {

/// `p` orders the values `0..n`, each exactly once.
pub open spec fn is_permutation(p: Seq<i64>, n: int) -> bool {
    &&& p.len() == n
    &&& forall|i: int| 0 <= i < p.len() ==> 0 <= #[trigger] p[i] < n
    &&& forall|i: int, j: int| 0 <= i < j < p.len() ==> p[i] != p[j]
}

/// Relies on itertools' `Itertools::permutations`: on the distinct values
/// `0..n`, taken `n` at a time, it yields every ordering of them.
#[verifier::external_body]
fn permutations_of_range(n: i64) -> (r: Vec<Vec<i64>>)
    requires
        0 <= n,
    ensures
        forall|i: int| 0 <= i < r@.len() ==> is_permutation(#[trigger] r@[i]@, n as int),
        forall|p: Seq<i64>| #[trigger]
            is_permutation(p, n as int) ==> exists|i: int| 0 <= i < r@.len() && #[trigger] r@[i]@ == p,
{
    (0..n).permutations(n as usize).collect()
}

/// A fresh machine on `code` whose input queue holds `inputs`.
pub open spec fn primed(code: Seq<i64>, inputs: Seq<i64>) -> MachineModel {
    MachineModel { inputs, ..initial_model(code) }
}

/// What a run to completion returns: the last output, or the fault.
pub open spec fn final_output(s: MachineModel) -> Result<i64, Fault> {
    match drain(s).2 {
        Ok(_) => Ok(drain(s).0.output),
        Err(f) => Err(f),
    }
}

/// The signal that leaves a series of amplifiers, one per phase setting,
/// each reading its phase and then the previous amplifier's signal.
pub open spec fn chain_output(code: Seq<i64>, phases: Seq<i64>, input: i64) -> Result<i64, Fault>
    decreases phases.len(),
{
    if phases.len() == 0 {
        Ok(input)
    } else {
        match final_output(primed(code, seq![phases[0], input])) {
            Ok(o) => chain_output(code, phases.drop_first(), o),
            Err(f) => Err(f),
        }
    }
}

/// One round of a feedback loop from machine `i` on: each machine in turn
/// is fed the signal, stepped once, and passes its last output on.
pub open spec fn feedback_round(ms: Seq<MachineModel>, input: i64, i: nat) -> Result<
    (Seq<MachineModel>, i64),
    Fault,
>
    decreases ms.len() - i,
{
    if i >= ms.len() {
        Ok((ms, input))
    } else {
        let fed = MachineModel { inputs: ms[i as int].inputs.push(input), ..ms[i as int] };
        let (t, r) = run(fed);
        match r {
            Err(f) => Err(f),
            Ok(_) => feedback_round(ms.update(i as int, t), t.output, i + 1),
        }
    }
}

/// A round that ends without a fault spends budget of the last machine,
/// unless it had halted already.
pub proof fn lemma_round_spends(ms: Seq<MachineModel>, input: i64, i: nat)
    requires
        i < ms.len(),
        !ms.last().halted,
    ensures
        feedback_round(ms, input, i) is Ok ==> {
            let ms2 = feedback_round(ms, input, i)->Ok_0.0;
            ms2.len() == ms.len() && ms2.last().budget < ms.last().budget
        },
    decreases ms.len() - i,
{
    let fed = MachineModel { inputs: ms[i as int].inputs.push(input), ..ms[i as int] };
    lemma_step_follows_execution(fed);
    let (t, r) = run(fed);
    if r is Ok {
        let next = ms.update(i as int, t);
        if i + 1 < ms.len() {
            lemma_round_spends(next, t.output, i + 1);
        }
    }
}

/// The signal that a feedback loop of machines finally sends: rounds run
/// until the last machine has halted; its last output is the result.
pub open spec fn feedback_loop(ms: Seq<MachineModel>, input: i64) -> Result<i64, Fault>
    decreases ms.last().budget,
{
    if ms.len() == 0 {
        Ok(input)
    } else if ms.last().halted {
        Ok(ms.last().output)
    } else {
        match feedback_round(ms, input, 0) {
            Err(f) => Err(f),
            Ok((ms2, o)) => {
                proof {
                    lemma_round_spends(ms, input, 0);
                }
                feedback_loop(ms2, o)
            },
        }
    }
}

/// The signal of a feedback loop with one amplifier per phase setting,
/// started with signal 0.
pub open spec fn feedback_output(code: Seq<i64>, phases: Seq<i64>) -> Result<i64, Fault> {
    feedback_loop(phases.map_values(|p: i64| primed(code, seq![p])), 0)
}

/// The states of a list of machines.
pub open spec fn views(ms: Seq<Machine>) -> Seq<MachineModel> {
    ms.map_values(|m: Machine| m@)
}

/// Runs a series of amplifiers, one per phase setting, starting with signal 0.
pub fn amplify_chain(code: &[i64], phases: &Vec<i64>) -> (r: Result<i64, Fault>)
    requires
        code@.len() <= MEMORY_LIMIT,
    ensures
        r == chain_output(code@, phases@, 0),
{
    let mut input: i64 = 0;
    let mut i: usize = 0;
    assert(phases@.subrange(0, phases@.len() as int) =~= phases@);
    while i < phases.len()
        invariant
            code@.len() <= MEMORY_LIMIT,
            i <= phases@.len(),
            chain_output(code@, phases@, 0) == chain_output(
                code@,
                phases@.subrange(i as int, phases@.len() as int),
                input,
            ),
        decreases phases.len() - i,
    {
        let mut machine = Machine::new(code);
        machine.feed(phases[i]);
        machine.feed(input);
        proof {
            assert(machine@.inputs =~= seq![phases@[i as int], input]);
            assert(phases@.subrange(i as int, phases@.len() as int).drop_first() =~= phases@.subrange(
                i + 1,
                phases@.len() as int,
            ));
        }
        match machine.eval() {
            Ok(o) => {
                input = o;
            },
            Err(f) => {
                return Err(f);
            },
        }
        i = i + 1;
    }
    Ok(input)
}

/// Runs a feedback loop with one amplifier per phase setting: starting with
/// signal 0, each machine in turn is fed the signal and stepped once, until
/// the last machine halts. Returns its last output.
pub fn amplify_feedback(code: &[i64], phases: &Vec<i64>) -> (r: Result<i64, Fault>)
    requires
        code@.len() <= MEMORY_LIMIT,
        phases@.len() > 0,
    ensures
        r == feedback_output(code@, phases@),
{
    let n = phases.len();
    let mut machines: Vec<Machine> = Vec::new();
    let mut k: usize = 0;
    while k < n
        invariant
            code@.len() <= MEMORY_LIMIT,
            n == phases@.len(),
            k <= n,
            machines@.len() == k,
            forall|j: int| 0 <= j < k ==> (#[trigger] machines@[j])@ == primed(code@, seq![phases@[j]]),
            forall|j: int| 0 <= j < k ==> (#[trigger] machines@[j]).wf(),
        decreases n - k,
    {
        let mut m = Machine::new(code);
        m.feed(phases[k]);
        proof {
            assert(m@ == primed(code@, seq![phases@[k as int]]));
        }
        machines.push(m);
        k = k + 1;
    }
    proof {
        assert(views(machines@) =~= phases@.map_values(|p: i64| primed(code@, seq![p])));
    }
    let last = n - 1;
    let mut input: i64 = 0;
    while !machines[last].halted()
        invariant
            n == phases@.len() > 0,
            last == n - 1,
            machines@.len() == n,
            forall|j: int| 0 <= j < n ==> (#[trigger] machines@[j]).wf(),
            feedback_loop(views(machines@), input) == feedback_output(code@, phases@),
        decreases machines@[last as int]@.budget,
    {
        let ghost start = views(machines@);
        let ghost start_input = input;
        proof {
            assert(start.last() == machines@[last as int]@);
            lemma_round_spends(start, input, 0);
        }
        let mut i: usize = 0;
        while i < n
            invariant
                n == phases@.len() > 0,
                last == n - 1,
                i <= n,
                machines@.len() == n,
                forall|j: int| 0 <= j < n ==> (#[trigger] machines@[j]).wf(),
                feedback_round(start, start_input, 0) == feedback_round(views(machines@), input, i as nat),
                start.len() == n,
                !start.last().halted,
                feedback_loop(start, start_input) == feedback_output(code@, phases@),
            decreases n - i,
        {
            let ghost before = views(machines@);
            machines[i].feed(input);
            let r = machines[i].step();
            proof {
                assert(views(machines@) =~= before.update(i as int, machines@[i as int]@));
            }
            if let Err(f) = r {
                return Err(f);
            }
            input = machines[i].last_output();
            i = i + 1;
        }
        proof {
            assert(views(machines@).last() == machines@[last as int]@);
        }
    }
    Ok(machines[last].last_output())
}

/// The signal that the phase ordering `p` of `0..5` yields: in series, or,
/// with phases `5..10` (each value of `p` plus five), in a feedback loop.
pub open spec fn setting_output(code: Seq<i64>, p: Seq<i64>, feedback: bool) -> Result<i64, Fault> {
    if feedback {
        feedback_output(code, p.map_values(|x: i64| (x + 5) as i64))
    } else {
        chain_output(code, p, 0)
    }
}

/// `r` is the best signal over all phase orderings of `0..5`: the largest
/// one if every ordering runs without a fault, otherwise the fault of some
/// ordering.
pub open spec fn is_best_setting(code: Seq<i64>, feedback: bool, r: Result<i64, Fault>) -> bool {
    match r {
        Ok(m) => {
            &&& exists|p: Seq<i64>| is_permutation(p, 5) && setting_output(code, p, feedback) == Ok::<i64, Fault>(m)
            &&& forall|p: Seq<i64>|
                is_permutation(p, 5) ==> #[trigger] setting_output(code, p, feedback) is Ok
                    && setting_output(code, p, feedback)->Ok_0 <= m
        },
        Err(f) => exists|p: Seq<i64>|
            is_permutation(p, 5) && setting_output(code, p, feedback) == Err::<i64, Fault>(f),
    }
}

/// The phase settings `p` with `offset` added to each.
fn shift_phases(p: &Vec<i64>, offset: i64) -> (r: Vec<i64>)
    requires
        0 <= offset <= 5,
        forall|i: int| 0 <= i < p@.len() ==> 0 <= #[trigger] p@[i] < 5,
    ensures
        r@ == p@.map_values(|x: i64| (x + offset) as i64),
{
    let mut r: Vec<i64> = Vec::new();
    let mut i: usize = 0;
    while i < p.len()
        invariant
            0 <= offset <= 5,
            forall|j: int| 0 <= j < p@.len() ==> 0 <= #[trigger] p@[j] < 5,
            i <= p@.len(),
            r@ =~= p@.subrange(0, i as int).map_values(|x: i64| (x + offset) as i64),
        decreases p.len() - i,
    {
        r.push(p[i] + offset);
        i = i + 1;
    }
    assert(p@.subrange(0, p@.len() as int) =~= p@);
    r
}

/// Tries every ordering of the phases `0..5` and returns the best signal,
/// in series or in a feedback loop.
fn try_permutations(code: &[i64], feedback: bool) -> (r: Result<i64, Fault>)
    requires
        code@.len() <= MEMORY_LIMIT,
    ensures
        is_best_setting(code@, feedback, r),
{
    let perms = permutations_of_range(5);
    proof {
        let id = seq![0i64, 1, 2, 3, 4];
        assert(is_permutation(id, 5));
    }
    let mut best: i64 = 0;
    let mut i: usize = 0;
    while i < perms.len()
        invariant
            code@.len() <= MEMORY_LIMIT,
            i <= perms@.len(),
            perms@.len() > 0,
            forall|j: int| 0 <= j < perms@.len() ==> is_permutation(#[trigger] perms@[j]@, 5),
            i > 0 ==> exists|j: int|
                0 <= j < i && setting_output(code@, #[trigger] perms@[j]@, feedback) == Ok::<i64, Fault>(
                    best,
                ),
            forall|j: int|
                0 <= j < i ==> #[trigger] setting_output(code@, perms@[j]@, feedback) is Ok
                    && setting_output(code@, perms@[j]@, feedback)->Ok_0 <= best,
        decreases perms.len() - i,
    {
        let p = &perms[i];
        let result = if feedback {
            let shifted = shift_phases(p, 5);
            amplify_feedback(code, &shifted)
        } else {
            amplify_chain(code, p)
        };
        assert(result == setting_output(code@, perms@[i as int]@, feedback));
        let v = match result {
            Ok(v) => v,
            Err(f) => {
                return Err(f);
            },
        };
        if i == 0 || v > best {
            best = v;
        }
        i = i + 1;
    }
    proof {
        assert forall|p: Seq<i64>| is_permutation(p, 5) implies #[trigger] setting_output(
            code@,
            p,
            feedback,
        ) is Ok && setting_output(code@, p, feedback)->Ok_0 <= best by {
            let j = choose|j: int| 0 <= j < perms@.len() && #[trigger] perms@[j]@ == p;
            assert(setting_output(code@, perms@[j]@, feedback) is Ok);
        }
    }
    Ok(best)
}

/// The largest signal a series of five amplifiers can send, over all
/// orderings of the phase settings `0..5`.
pub fn find_max_amplification(code: &[i64]) -> (r: Result<i64, Fault>)
    requires
        code@.len() <= MEMORY_LIMIT,
    ensures
        is_best_setting(code@, false, r),
{
    try_permutations(code, false)
}

/// The largest signal a feedback loop of five amplifiers can send, over all
/// orderings of the phase settings `5..10`.
pub fn find_max_amplification_feedback(code: &[i64]) -> (r: Result<i64, Fault>)
    requires
        code@.len() <= MEMORY_LIMIT,
    ensures
        is_best_setting(code@, true, r),
{
    try_permutations(code, true)
}

} // verus!
