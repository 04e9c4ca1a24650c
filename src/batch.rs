//! Single-shot uses of the machine: load, patch or feed, run to the end.
use vstd::prelude::*;

use crate::amplifier::{final_output, primed};
use crate::machine::{initial_model, Machine};
use crate::semantics::{drain, mem_at, mem_write, Fault, MachineModel, MEMORY_LIMIT};

verus! {

/// The machine on `code` with `noun` at address 1 and `verb` at address 2.
pub open spec fn patched(code: Seq<i64>, noun: i64, verb: i64) -> MachineModel {
    MachineModel { mem: mem_write(mem_write(code, 1, noun), 2, verb), ..initial_model(code) }
}

/// What address 0 holds once the patched program has halted.
pub open spec fn gravity_output(code: Seq<i64>, noun: i64, verb: i64) -> Result<i64, Fault> {
    let d = drain(patched(code, noun, verb));
    match d.2 {
        Ok(_) => Ok(mem_at(d.0.mem, 0)),
        Err(f) => Err(f),
    }
}

/// Searching the pairs `(k / 100, k % 100)` from `k` on, in order, for
/// one that leaves `target` at address 0; the answer is `100 * noun + verb`.
pub open spec fn noun_verb_search(code: Seq<i64>, target: i64, k: nat) -> Result<Option<i64>, Fault>
    decreases 10000 - k,
{
    if k >= 10000 {
        Ok(None)
    } else {
        match gravity_output(code, (k / 100) as i64, (k % 100) as i64) {
            Err(f) => Err(f),
            Ok(v) => if v == target {
                Ok(Some(k as i64))
            } else {
                noun_verb_search(code, target, k + 1)
            },
        }
    }
}

/// Runs `code` with `noun` and `verb` patched in at addresses 1 and 2 and
/// returns what address 0 holds when it halts.
pub fn gravity_assist(code: &[i64], noun: i64, verb: i64) -> (r: Result<i64, Fault>)
    requires
        code@.len() <= MEMORY_LIMIT,
    ensures
        r == gravity_output(code@, noun, verb),
{
    let mut machine = Machine::new(code);
    machine.mem_set(1, noun);
    machine.mem_set(2, verb);
    let r = machine.eval();
    match r {
        Ok(_) => Ok(machine.mem_get(0)),
        Err(f) => Err(f),
    }
}

/// Finds the first noun and verb in `0..=99` (nouns first) that leave
/// `target` at address 0, as `100 * noun + verb`.
pub fn find_noun_verb(code: &[i64], target: i64) -> (r: Result<Option<i64>, Fault>)
    requires
        code@.len() <= MEMORY_LIMIT,
    ensures
        r == noun_verb_search(code@, target, 0),
{
    let mut noun: i64 = 0;
    while noun <= 99
        invariant
            code@.len() <= MEMORY_LIMIT,
            0 <= noun <= 100,
            noun_verb_search(code@, target, 0) == noun_verb_search(code@, target, (100 * noun) as nat),
        decreases 100 - noun,
    {
        let mut verb: i64 = 0;
        while verb <= 99
            invariant
                code@.len() <= MEMORY_LIMIT,
                0 <= noun <= 99,
                0 <= verb <= 100,
                noun_verb_search(code@, target, 0) == noun_verb_search(
                    code@,
                    target,
                    (100 * noun + verb) as nat,
                ),
            decreases 100 - verb,
        {
            let k = 100 * noun + verb;
            assert((k as nat) / 100 == noun && (k as nat) % 100 == verb) by (nonlinear_arith)
                requires
                    k == 100 * noun + verb,
                    0 <= noun <= 99,
                    0 <= verb <= 99,
            ;
            match gravity_assist(code, noun, verb) {
                Err(f) => {
                    return Err(f);
                },
                Ok(v) => if v == target {
                    return Ok(Some(k));
                },
            }
            verb = verb + 1;
        }
        noun = noun + 1;
    }
    Ok(None)
}

/// Runs a diagnostic program on one input and returns all its outputs.
pub fn diagnostic_outputs(code: &[i64], input: i64) -> (r: Result<Vec<i64>, Fault>)
    requires
        code@.len() <= MEMORY_LIMIT,
    ensures
        match drain(primed(code@, seq![input])).2 {
            Ok(_) => r is Ok && r->Ok_0@ == drain(primed(code@, seq![input])).1,
            Err(f) => r == Err::<Vec<i64>, Fault>(f),
        },
{
    let mut machine = Machine::new(code);
    machine.feed(input);
    assert(machine@ == primed(code@, seq![input]));
    machine.eval_multi()
}

/// Runs a program on one input and returns its last output.
pub fn boost_keycode(code: &[i64], input: i64) -> (r: Result<i64, Fault>)
    requires
        code@.len() <= MEMORY_LIMIT,
    ensures
        r == final_output(primed(code@, seq![input])),
{
    let mut machine = Machine::new(code);
    machine.feed(input);
    assert(machine@ == primed(code@, seq![input]));
    machine.eval()
}

} // verus!
