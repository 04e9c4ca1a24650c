//! The mathematical model of the machine: its state, the effect of one
//! instruction, and the runs that `Machine::step` and friends perform.
use vstd::prelude::*;

verus! {

/// Memory may grow to at most this many cells. Keeping it a little under
/// `usize::MAX` lets the instruction pointer move past any decoded
/// instruction without overflowing.
pub const MEMORY_LIMIT: usize = usize::MAX - 3;

/// Why the machine stopped without reaching an output or a halt.
#[derive(Clone, Copy, Debug, PartialEq, Eq, Structural)]
pub enum Fault {
    /// The word at the instruction pointer encodes no known opcode.
    UnknownOpcode(i64),
    /// The instruction word holds a mode digit other than 0, 1 or 2 for a
    /// parameter that the instruction uses.
    InvalidMode(i64),
    /// A write target or a jump target is given in immediate mode.
    ImmediateWrite(i64),
    /// A write target resolves to a negative address or one past the memory limit.
    InvalidAddress(i128),
    /// A jump target resolves to a negative address or one that does not
    /// fit a `usize`.
    InvalidJump(i128),
    /// The machine has used up its instruction budget.
    BudgetExhausted,
}

/// The abstract state of a machine.
pub struct MachineModel {
    pub mem: Seq<i64>,
    pub inputs: Seq<i64>,
    pub latch: i64,
    pub output: i64,
    pub relative_base: i64,
    pub ip: nat,
    pub halted: bool,
    /// How many more instructions the machine may execute.
    pub budget: nat,
}

/// Reading memory: any address outside the allocated cells reads as zero.
pub open spec fn mem_at(mem: Seq<i64>, addr: int) -> i64 {
    if 0 <= addr < mem.len() {
        mem[addr]
    } else {
        0
    }
}

/// Writing memory at a non-negative address, growing it with zeros as needed.
pub open spec fn mem_write(mem: Seq<i64>, addr: nat, value: i64) -> Seq<i64> {
    let len = if addr < mem.len() {
        mem.len()
    } else {
        addr + 1
    };
    Seq::new(
        len,
        |i: int|
            if i == addr {
                value
            } else if i < mem.len() {
                mem[i]
            } else {
                0
            },
    )
}

/// The opcode of an instruction word (`-1` for a negative word, which has none).
pub open spec fn opcode_of(word: i64) -> int {
    if word < 0 {
        -1
    } else {
        (word as int) % 100
    }
}

/// The addressing mode of parameter `k` (1, 2 or 3) of an instruction word.
pub open spec fn mode_of(word: i64, k: int) -> int {
    if k == 1 {
        (word as int / 100) % 10
    } else if k == 2 {
        (word as int / 1000) % 10
    } else {
        (word as int / 10000) % 10
    }
}

/// The value a parameter denotes: position mode dereferences the raw operand,
/// immediate mode is the operand itself, relative mode dereferences
/// `relative_base + operand`.
pub open spec fn operand_value(mem: Seq<i64>, mode: int, raw: i64, relative_base: i64) -> i64 {
    if mode == 1 {
        raw
    } else if mode == 2 {
        mem_at(mem, relative_base + raw)
    } else {
        mem_at(mem, raw as int)
    }
}

/// The address a write target denotes in position (0) or relative (2) mode.
pub open spec fn operand_address(mode: int, raw: i64, relative_base: i64) -> int {
    if mode == 2 {
        relative_base + raw
    } else {
        raw as int
    }
}

/// A cell that a write may reach.
pub open spec fn writable(addr: int) -> bool {
    0 <= addr < MEMORY_LIMIT
}

/// The word at the instruction pointer.
pub open spec fn current_word(s: MachineModel) -> i64 {
    mem_at(s.mem, s.ip as int)
}

/// The raw operand of parameter `k` of the current instruction.
pub open spec fn raw_operand(s: MachineModel, k: int) -> i64 {
    mem_at(s.mem, s.ip + k)
}

/// Resolving parameter `k` of the current instruction as a value.
pub open spec fn read_param(s: MachineModel, k: int) -> Result<i64, Fault> {
    let word = current_word(s);
    let mode = mode_of(word, k);
    if 0 <= mode <= 2 {
        Ok(operand_value(s.mem, mode, raw_operand(s, k), s.relative_base))
    } else {
        Err(Fault::InvalidMode(word))
    }
}

/// Resolving parameter `k` of the current instruction as a write target.
pub open spec fn write_param(s: MachineModel, k: int) -> Result<nat, Fault> {
    let word = current_word(s);
    let mode = mode_of(word, k);
    if mode == 1 {
        Err(Fault::ImmediateWrite(word))
    } else if mode != 0 && mode != 2 {
        Err(Fault::InvalidMode(word))
    } else {
        let addr = operand_address(mode, raw_operand(s, k), s.relative_base);
        if writable(addr) {
            Ok(addr as nat)
        } else {
            Err(Fault::InvalidAddress(addr as i128))
        }
    }
}

/// The value that add, multiply, less-than and equals compute.
pub open spec fn combine(op: int, a: i64, b: i64) -> i64 {
    if op == 1 {
        a.wrapping_add(b)
    } else if op == 2 {
        a.wrapping_mul(b)
    } else if op == 7 {
        if a < b {
            1
        } else {
            0
        }
    } else {
        if a == b {
            1
        } else {
            0
        }
    }
}

/// A jump target is usable as an instruction pointer.
pub open spec fn valid_jump(target: int) -> bool {
    0 <= target <= usize::MAX
}

/// Resolving parameter `k` of the current instruction as a jump target.
/// Like a write target it is an address, never dereferenced further:
/// position mode gives the raw operand, relative mode `relative_base +
/// operand`, and immediate mode is a decode error.
pub open spec fn jump_param(s: MachineModel, k: int) -> Result<nat, Fault> {
    let word = current_word(s);
    let mode = mode_of(word, k);
    if mode == 1 {
        Err(Fault::ImmediateWrite(word))
    } else if mode != 0 && mode != 2 {
        Err(Fault::InvalidMode(word))
    } else {
        let addr = operand_address(mode, raw_operand(s, k), s.relative_base);
        if valid_jump(addr) {
            Ok(addr as nat)
        } else {
            Err(Fault::InvalidJump(addr as i128))
        }
    }
}

/// The effect of executing the instruction at the instruction pointer,
/// leaving the budget alone. An error leaves the state as it was.
pub open spec fn exec_one(s: MachineModel) -> Result<MachineModel, Fault> {
    let word = current_word(s);
    let op = opcode_of(word);
    if op == 1 || op == 2 || op == 7 || op == 8 {
        match read_param(s, 1) {
            Err(f) => Err(f),
            Ok(a) => match read_param(s, 2) {
                Err(f) => Err(f),
                Ok(b) => match write_param(s, 3) {
                    Err(f) => Err(f),
                    Ok(dst) => Ok(
                        MachineModel { mem: mem_write(s.mem, dst, combine(op, a, b)), ip: s.ip + 4, ..s },
                    ),
                },
            },
        }
    } else if op == 3 {
        match write_param(s, 1) {
            Err(f) => Err(f),
            Ok(dst) => {
                let value = if s.inputs.len() > 0 {
                    s.inputs[0]
                } else {
                    s.latch
                };
                let rest = if s.inputs.len() > 0 {
                    s.inputs.drop_first()
                } else {
                    s.inputs
                };
                Ok(MachineModel { mem: mem_write(s.mem, dst, value), inputs: rest, ip: s.ip + 2, ..s })
            },
        }
    } else if op == 4 {
        match read_param(s, 1) {
            Err(f) => Err(f),
            Ok(a) => Ok(MachineModel { output: a, ip: s.ip + 2, ..s }),
        }
    } else if op == 5 || op == 6 {
        match read_param(s, 1) {
            Err(f) => Err(f),
            Ok(c) => if (c != 0) == (op == 5) {
                match jump_param(s, 2) {
                    Err(f) => Err(f),
                    Ok(t) => Ok(MachineModel { ip: t, ..s }),
                }
            } else {
                Ok(MachineModel { ip: s.ip + 3, ..s })
            },
        }
    } else if op == 9 {
        match read_param(s, 1) {
            Err(f) => Err(f),
            Ok(a) => Ok(MachineModel { relative_base: s.relative_base.wrapping_add(a), ip: s.ip + 2, ..s }),
        }
    } else if op == 99 {
        Ok(MachineModel { halted: true, ..s })
    } else {
        Err(Fault::UnknownOpcode(word))
    }
}

/// The current instruction is a suspension point (output or halt).
pub open spec fn suspends(s: MachineModel) -> bool {
    opcode_of(current_word(s)) == 4 || opcode_of(current_word(s)) == 99
}

/// `t` after one instruction's worth of budget has been spent from `s`.
pub open spec fn spend(t: MachineModel, s: MachineModel) -> MachineModel {
    MachineModel { budget: (s.budget - 1) as nat, ..t }
}

/// One call of `step`: execute instructions until one of them outputs or
/// halts. The result is the state reached and whether it was reached
/// without a fault. A halted machine stays as it is.
pub open spec fn run(s: MachineModel) -> (MachineModel, Result<(), Fault>)
    decreases s.budget,
{
    if s.halted {
        (s, Ok(()))
    } else if s.budget == 0 {
        (s, Err(Fault::BudgetExhausted))
    } else {
        match exec_one(s) {
            Err(f) => (s, Err(f)),
            Ok(t) => if suspends(s) {
                (spend(t, s), Ok(()))
            } else {
                run(spend(t, s))
            },
        }
    }
}

/// The whole execution from `s` until the machine halts or faults: the final
/// state, every value output on the way in order, and whether it halted.
pub open spec fn drain(s: MachineModel) -> (MachineModel, Seq<i64>, Result<(), Fault>)
    decreases s.budget,
{
    if s.halted {
        (s, seq![], Ok(()))
    } else if s.budget == 0 {
        (s, seq![], Err(Fault::BudgetExhausted))
    } else {
        match exec_one(s) {
            Err(f) => (s, seq![], Err(f)),
            Ok(t) => {
                let rest = drain(spend(t, s));
                let out = if opcode_of(current_word(s)) == 4 {
                    seq![t.output] + rest.1
                } else {
                    rest.1
                };
                (rest.0, out, rest.2)
            },
        }
    }
}

/// Each call of `step` is the next stretch of the one execution: the whole
/// execution from `s` is what the first call does, followed by the whole
/// execution from where that call stopped. A call that faults has output
/// nothing; a call that returns normally has output exactly one value, unless
/// it halted, and has used up budget.
pub proof fn lemma_step_follows_execution(s: MachineModel)
    ensures
        ({
            let (t, r) = run(s);
            let d = drain(s);
            if s.halted {
                t == s && r is Ok && d == (s, Seq::<i64>::empty(), Ok::<(), Fault>(()))
            } else {
                match r {
                    Err(f) => d == (t, Seq::<i64>::empty(), Err::<(), Fault>(f)),
                    Ok(_) => {
                        &&& t.budget < s.budget
                        &&& d == (
                            drain(t).0,
                            (if t.halted {
                                Seq::<i64>::empty()
                            } else {
                                seq![t.output]
                            }) + drain(t).1,
                            drain(t).2,
                        )
                    },
                }
            }
        }),
    decreases s.budget,
{
    if !s.halted && s.budget > 0 {
        if let Ok(t) = exec_one(s) {
            let t2 = spend(t, s);
            if suspends(s) {
                if t2.halted {
                    assert(Seq::<i64>::empty() + Seq::<i64>::empty() =~= Seq::<i64>::empty());
                }
            } else {
                lemma_step_follows_execution(t2);
            }
        }
    }
}

/// Memory is addressed the same way whatever mode reaches it: a value
/// written through a relative-mode target with base `base` and operand `raw`
/// reads back through a position-mode operand `base + raw` with base zero.
pub proof fn lemma_relative_write_position_read(mem: Seq<i64>, base: i64, raw: i64, value: i64)
    requires
        writable(operand_address(2, raw, base)),
        base + raw <= i64::MAX,
    ensures
        operand_value(mem_write(mem, operand_address(2, raw, base) as nat, value), 0, (base + raw) as i64, 0)
            == value,
{
}

/// Instruction 9 moves the relative base for every later instruction: once
/// it has executed with value `delta`, a relative operand `raw` resolves to
/// `base + delta + raw`, where `base` is the relative base before.
pub proof fn lemma_adjust_base(s: MachineModel, raw: i64)
    requires
        opcode_of(current_word(s)) == 9,
        read_param(s, 1) is Ok,
        i64::MIN <= s.relative_base + read_param(s, 1)->Ok_0 <= i64::MAX,
    ensures
        exec_one(s) is Ok,
        exec_one(s)->Ok_0.relative_base == s.relative_base + read_param(s, 1)->Ok_0,
        operand_address(2, raw, exec_one(s)->Ok_0.relative_base) == s.relative_base + read_param(s, 1)->Ok_0
            + raw,
{
}

/// `n` calls of `step` from `s`: the state reached, the value output by
/// each call that returned at an output (in order), and whether every call
/// returned without a fault. Calls on a halted machine change nothing.
pub open spec fn step_calls(s: MachineModel, n: nat) -> (MachineModel, Seq<i64>, Result<(), Fault>)
    decreases n,
{
    if n == 0 {
        (s, seq![], Ok(()))
    } else {
        let (t, r) = run(s);
        match r {
            Err(f) => (t, seq![], Err(f)),
            Ok(_) => {
                let rest = step_calls(t, (n - 1) as nat);
                (
                    rest.0,
                    (if t.halted {
                        Seq::<i64>::empty()
                    } else {
                        seq![t.output]
                    }) + rest.1,
                    rest.2,
                )
            },
        }
    }
}

/// Stepping a program that halts: with `k` outputs in its whole execution,
/// each of the first `k` calls of `step` returns at the next output in
/// order, and call `k + 1` returns at the halt, in the final state.
pub proof fn lemma_step_calls_match_outputs(s: MachineModel, n: nat)
    requires
        drain(s).2 is Ok,
        n <= drain(s).1.len() + 1,
    ensures
        n <= drain(s).1.len() ==> step_calls(s, n).1 == drain(s).1.take(n as int),
        n <= drain(s).1.len() ==> step_calls(s, n).2 is Ok,
        1 <= n <= drain(s).1.len() ==> !step_calls(s, n).0.halted,
        n == drain(s).1.len() + 1 ==> step_calls(s, n) == (drain(s).0, drain(s).1, Ok::<(), Fault>(())),
        n == drain(s).1.len() + 1 ==> drain(s).0.halted,
    decreases s.budget, n,
{
    lemma_step_follows_execution(s);
    lemma_drain_halts(s);
    if n == 0 {
        assert(drain(s).1.take(0) =~= Seq::<i64>::empty());
    } else {
        let (t, r) = run(s);
        if s.halted {
            assert(Seq::<i64>::empty() + Seq::<i64>::empty() =~= Seq::<i64>::empty());
        } else {
            lemma_step_calls_match_outputs(t, (n - 1) as nat);
            lemma_drain_halts(t);
            let x = if t.halted {
                Seq::<i64>::empty()
            } else {
                seq![t.output]
            };
            if t.halted {
                assert(x + Seq::<i64>::empty() =~= Seq::<i64>::empty());
            } else {
                if n <= drain(s).1.len() {
                    assert(x + drain(t).1.take(n - 1) =~= (x + drain(t).1).take(n as int));
                }
            }
        }
    }
}

/// An execution that ends without a fault ends halted.
pub proof fn lemma_drain_halts(s: MachineModel)
    ensures
        drain(s).2 is Ok ==> drain(s).0.halted,
    decreases s.budget,
{
    if !s.halted && s.budget > 0 {
        if let Ok(t) = exec_one(s) {
            lemma_drain_halts(spend(t, s));
        }
    }
}

/// A step depends on nothing but the machine's own state: two machines
/// that differ at most in their remaining budget, neither of which runs out
/// of it, end in the same state (but for the budget) with the same result.
pub proof fn lemma_step_depends_on_state_only(s1: MachineModel, s2: MachineModel)
    requires
        s1 == (MachineModel { budget: s1.budget, ..s2 }),
        run(s1).1 != Err::<(), Fault>(Fault::BudgetExhausted),
        run(s2).1 != Err::<(), Fault>(Fault::BudgetExhausted),
    ensures
        run(s1).0 == (MachineModel { budget: run(s1).0.budget, ..run(s2).0 }),
        run(s1).1 == run(s2).1,
    decreases s1.budget,
{
    if !s1.halted && s1.budget > 0 && s2.budget > 0 {
        if let Ok(t1) = exec_one(s1) {
            let t2 = exec_one(s2)->Ok_0;
            assert(t1 == (MachineModel { budget: t1.budget, ..t2 }));
            if !suspends(s1) {
                lemma_step_depends_on_state_only(spend(t1, s1), spend(t2, s2));
            }
        }
    }
}

} // verus!
