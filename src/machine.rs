//! The executable machine. Every operation is specified against
//! [`MachineModel`] through the machine's view.
use vstd::prelude::*;

use crate::semantics::{
    current_word, jump_param, lemma_step_follows_execution, drain, exec_one, mem_at, mem_write, mode_of, read_param, run, suspends,
    write_param, Fault, MachineModel, MEMORY_LIMIT,
};

verus! {

/// How many instructions a freshly built machine may execute.
pub const DEFAULT_BUDGET: u64 = u64::MAX;

/// An Intcode machine: memory, registers, an input queue and an input latch.
pub struct Machine {
    mem: Vec<i64>,
    inputs: Vec<i64>,
    mem_input: i64,
    output: i64,
    relative_base: i64,
    ip: usize,
    halted: bool,
    budget: u64,
}

impl View for Machine {
    type V = MachineModel;

    closed spec fn view(&self) -> MachineModel {
        MachineModel {
            mem: self.mem@,
            inputs: self.inputs@,
            latch: self.mem_input,
            output: self.output,
            relative_base: self.relative_base,
            ip: self.ip as nat,
            halted: self.halted,
            budget: self.budget as nat,
        }
    }
}

/// The state of a machine freshly loaded with `mem`.
pub open spec fn initial_model(mem: Seq<i64>) -> MachineModel {
    MachineModel {
        mem,
        inputs: seq![],
        latch: 0,
        output: 0,
        relative_base: 0,
        ip: 0,
        halted: false,
        budget: DEFAULT_BUDGET as nat,
    }
}

impl Machine {
    /// Memory stays within the limit; every operation preserves this.
    pub open spec fn wf(&self) -> bool {
        self@.mem.len() <= MEMORY_LIMIT
    }

    /// Creates the machine from the given memory image.
    pub fn new(mem: &[i64]) -> (r: Machine)
        requires
            mem@.len() <= MEMORY_LIMIT,
        ensures
            r@ == initial_model(mem@),
    {
        Machine {
            mem: vstd::slice::slice_to_vec(mem),
            inputs: Vec::new(),
            mem_input: 0,
            output: 0,
            relative_base: 0,
            ip: 0,
            halted: false,
            budget: DEFAULT_BUDGET,
        }
    }

    /// Appends `value` to the input queue.
    pub fn feed(&mut self, value: i64)
        ensures
            final(self)@ == (MachineModel { inputs: old(self)@.inputs.push(value), ..old(self)@ }),
    {
        self.inputs.push(value);
    }

    /// Sets the latch that input reads when the queue is empty.
    pub fn set_mem_input(&mut self, value: i64)
        ensures
            final(self)@ == (MachineModel { latch: value, ..old(self)@ }),
    {
        self.mem_input = value;
    }

    /// A read-only view of the memory.
    pub fn mem(&self) -> (r: &[i64])
        ensures
            r@ == self@.mem,
    {
        self.mem.as_slice()
    }

    /// The last output produced.
    pub fn last_output(&self) -> (r: i64)
        ensures
            r == self@.output,
    {
        self.output
    }

    /// The instruction pointer.
    pub fn ip(&self) -> (r: usize)
        ensures
            r == self@.ip,
    {
        self.ip
    }

    /// True once the halt instruction has executed.
    pub fn halted(&self) -> (r: bool)
        ensures
            r == self@.halted,
    {
        self.halted
    }

    /// Reads a memory cell; cells beyond the end read as zero.
    pub fn mem_get(&self, addr: usize) -> (r: i64)
        ensures
            r == mem_at(self@.mem, addr as int),
    {
        if addr < self.mem.len() {
            self.mem[addr]
        } else {
            0
        }
    }

    /// Writes a memory cell, growing memory with zeros up to `addr`.
    pub fn mem_set(&mut self, addr: usize, value: i64)
        requires
            addr < MEMORY_LIMIT,
        ensures
            final(self)@ == (MachineModel { mem: mem_write(old(self)@.mem, addr as nat, value), ..old(self)@ }),
            final(self)@.mem.len() == if addr < old(self)@.mem.len() {
                old(self)@.mem.len() as int
            } else {
                addr + 1
            },
            final(self)@.mem[addr as int] == value,
            forall|i: int|
                0 <= i < old(self)@.mem.len() && i != addr ==> #[trigger] final(self)@.mem[i] == old(self)@.mem[i],
            forall|i: int|
                old(self)@.mem.len() <= i < addr ==> #[trigger] final(self)@.mem[i] == 0,
    {
        let ghost old_mem = self.mem@;
        while self.mem.len() <= addr
            invariant
                addr < MEMORY_LIMIT,
                old_mem == old(self)@.mem,
                self@ == (MachineModel { mem: self.mem@, ..old(self)@ }),
                self.mem@.len() <= addr + 1 || self.mem@.len() == old_mem.len(),
                old_mem.len() <= self.mem@.len(),
                forall|i: int| 0 <= i < old_mem.len() ==> #[trigger] self.mem@[i] == old_mem[i],
                forall|i: int| old_mem.len() <= i < self.mem@.len() ==> #[trigger] self.mem@[i] == 0,
            decreases addr + 1 - self.mem.len(),
        {
            self.mem.push(0);
        }
        self.mem.set(addr, value);
        proof {
            assert(self.mem@ =~= mem_write(old_mem, addr as nat, value));
        }
    }

    /// Reads memory at an address given as a wide integer.
    fn read_at(&self, addr: i128) -> (r: i64)
        ensures
            r == mem_at(self@.mem, addr as int),
    {
        if 0 <= addr && addr < self.mem.len() as i128 {
            self.mem[addr as usize]
        } else {
            0
        }
    }

    /// The mode digit of parameter `k` in an instruction word.
    fn get_mode(word: i64, k: usize) -> (r: i64)
        requires
            word >= 0,
            1 <= k <= 3,
        ensures
            r == mode_of(word, k as int),
    {
        let divisor: i64 = if k == 1 {
            100
        } else if k == 2 {
            1000
        } else {
            10000
        };
        (word / divisor) % 10
    }

    /// Resolves parameter `k` of the current instruction as a value.
    fn arg(&self, k: usize) -> (r: Result<i64, Fault>)
        requires
            self.wf(),
            1 <= k <= 3,
            self@.ip < self@.mem.len(),
            current_word(self@) >= 0,
        ensures
            r == read_param(self@, k as int),
    {
        let word = self.mem[self.ip];
        let mode = Self::get_mode(word, k);
        let raw = self.mem_get(self.ip + k);
        if mode == 0 {
            Ok(self.read_at(raw as i128))
        } else if mode == 1 {
            Ok(raw)
        } else if mode == 2 {
            Ok(self.read_at(self.relative_base as i128 + raw as i128))
        } else {
            Err(Fault::InvalidMode(word))
        }
    }

    /// Resolves parameter `k` of the current instruction as a write target.
    fn put_target(&self, k: usize) -> (r: Result<usize, Fault>)
        requires
            self.wf(),
            1 <= k <= 3,
            self@.ip < self@.mem.len(),
            current_word(self@) >= 0,
        ensures
            match r {
                Ok(a) => write_param(self@, k as int) == Ok::<nat, Fault>(a as nat) && a < MEMORY_LIMIT,
                Err(f) => write_param(self@, k as int) == Err::<nat, Fault>(f),
            },
    {
        let word = self.mem[self.ip];
        let mode = Self::get_mode(word, k);
        let raw = self.mem_get(self.ip + k);
        if mode == 1 {
            return Err(Fault::ImmediateWrite(word));
        }
        if mode != 0 && mode != 2 {
            return Err(Fault::InvalidMode(word));
        }
        let addr: i128 = if mode == 2 {
            self.relative_base as i128 + raw as i128
        } else {
            raw as i128
        };
        if 0 <= addr && addr < MEMORY_LIMIT as i128 {
            Ok(addr as usize)
        } else {
            Err(Fault::InvalidAddress(addr))
        }
    }

    /// Resolves parameter `k` of the current instruction as a jump target.
    fn jump_target(&self, k: usize) -> (r: Result<usize, Fault>)
        requires
            self.wf(),
            1 <= k <= 3,
            self@.ip < self@.mem.len(),
            current_word(self@) >= 0,
        ensures
            match r {
                Ok(a) => jump_param(self@, k as int) == Ok::<nat, Fault>(a as nat),
                Err(f) => jump_param(self@, k as int) == Err::<nat, Fault>(f),
            },
    {
        let word = self.mem[self.ip];
        let mode = Self::get_mode(word, k);
        let raw = self.mem_get(self.ip + k);
        if mode == 1 {
            return Err(Fault::ImmediateWrite(word));
        }
        if mode != 0 && mode != 2 {
            return Err(Fault::InvalidMode(word));
        }
        let addr: i128 = if mode == 2 {
            self.relative_base as i128 + raw as i128
        } else {
            raw as i128
        };
        if 0 <= addr && addr <= usize::MAX as i128 {
            Ok(addr as usize)
        } else {
            Err(Fault::InvalidJump(addr))
        }
    }

    /// Executes the instruction at the instruction pointer, without touching
    /// the budget. Returns whether it was a suspension point.
    fn execute(&mut self) -> (r: Result<bool, Fault>)
        requires
            old(self).wf(),
            !old(self)@.halted,
        ensures
            final(self).wf(),
            match exec_one(old(self)@) {
                Ok(t) => r == Ok::<bool, Fault>(suspends(old(self)@)) && final(self)@ == t,
                Err(f) => r == Err::<bool, Fault>(f) && final(self)@ == old(self)@,
            },
    {
        let word = self.mem_get(self.ip);
        if word < 0 {
            return Err(Fault::UnknownOpcode(word));
        }
        let op = word % 100;
        if op == 0 {
            return Err(Fault::UnknownOpcode(word));
        }
        assert(self@.ip < self@.mem.len());
        if op == 1 || op == 2 || op == 7 || op == 8 {
            let a = match self.arg(1) {
                Ok(a) => a,
                Err(f) => return Err(f),
            };
            let b = match self.arg(2) {
                Ok(b) => b,
                Err(f) => return Err(f),
            };
            let dst = match self.put_target(3) {
                Ok(d) => d,
                Err(f) => return Err(f),
            };
            let value = if op == 1 {
                a.wrapping_add(b)
            } else if op == 2 {
                a.wrapping_mul(b)
            } else if op == 7 {
                if a < b {
                    1
                } else {
                    0
                }
            } else {
                if a == b {
                    1
                } else {
                    0
                }
            };
            self.mem_set(dst, value);
            self.ip = self.ip + 4;
            Ok(false)
        } else if op == 3 {
            let dst = match self.put_target(1) {
                Ok(d) => d,
                Err(f) => return Err(f),
            };
            let value = if self.inputs.len() > 0 {
                self.inputs.remove(0)
            } else {
                self.mem_input
            };
            self.mem_set(dst, value);
            self.ip = self.ip + 2;
            Ok(false)
        } else if op == 4 {
            let a = match self.arg(1) {
                Ok(a) => a,
                Err(f) => return Err(f),
            };
            self.output = a;
            self.ip = self.ip + 2;
            Ok(true)
        } else if op == 5 || op == 6 {
            let c = match self.arg(1) {
                Ok(c) => c,
                Err(f) => return Err(f),
            };
            if (c != 0) == (op == 5) {
                let t = match self.jump_target(2) {
                    Ok(t) => t,
                    Err(f) => return Err(f),
                };
                self.ip = t;
            } else {
                self.ip = self.ip + 3;
            }
            Ok(false)
        } else if op == 9 {
            let a = match self.arg(1) {
                Ok(a) => a,
                Err(f) => return Err(f),
            };
            self.relative_base = self.relative_base.wrapping_add(a);
            self.ip = self.ip + 2;
            Ok(false)
        } else if op == 99 {
            self.halted = true;
            Ok(true)
        } else {
            Err(Fault::UnknownOpcode(word))
        }
    }

    /// Executes instructions until one outputs or halts, then returns. A
    /// halted machine is left as it is. A fault leaves the machine at the
    /// faulting instruction.
    pub fn step(&mut self) -> (r: Result<(), Fault>)
        requires
            old(self).wf(),
        ensures
            final(self).wf(),
            (final(self)@, r) == run(old(self)@),
    {
        if self.halted {
            return Ok(());
        }
        loop
            invariant
                self.wf(),
                !self@.halted,
                run(self@) == run(old(self)@),
            decreases self.budget,
        {
            if self.budget == 0 {
                return Err(Fault::BudgetExhausted);
            }
            match self.execute() {
                Err(f) => {
                    return Err(f);
                },
                Ok(suspended) => {
                    self.budget = self.budget - 1;
                    if suspended {
                        return Ok(());
                    }
                },
            }
        }
    }

    /// Runs until the machine halts and returns the last output.
    pub fn eval(&mut self) -> (r: Result<i64, Fault>)
        requires
            old(self).wf(),
        ensures
            final(self).wf(),
            final(self)@ == drain(old(self)@).0,
            r == match drain(old(self)@).2 {
                Ok(_) => Ok::<i64, Fault>(drain(old(self)@).0.output),
                Err(f) => Err::<i64, Fault>(f),
            },
    {
        loop
            invariant
                self.wf(),
                drain(self@).0 == drain(old(self)@).0,
                drain(self@).2 == drain(old(self)@).2,
            decreases self.budget,
        {
            if self.halted {
                return Ok(self.output);
            }
            let ghost before = self@;
            let r = self.step();
            proof {
                lemma_step_follows_execution(before);
            }
            if let Err(f) = r {
                return Err(f);
            }
        }
    }

    /// Runs until the machine halts and returns every output in order.
    pub fn eval_multi(&mut self) -> (r: Result<Vec<i64>, Fault>)
        requires
            old(self).wf(),
        ensures
            final(self).wf(),
            final(self)@ == drain(old(self)@).0,
            match drain(old(self)@).2 {
                Ok(_) => r is Ok && r->Ok_0@ == drain(old(self)@).1,
                Err(f) => r == Err::<Vec<i64>, Fault>(f),
            },
    {
        let mut rv: Vec<i64> = Vec::new();
        loop
            invariant
                self.wf(),
                drain(old(self)@) == (drain(self@).0, rv@ + drain(self@).1, drain(self@).2),
            decreases self.budget,
        {
            let ghost before = self@;
            let r = self.step();
            proof {
                lemma_step_follows_execution(before);
            }
            if let Err(f) = r {
                return Err(f);
            }
            if self.halted {
                proof {
                    assert(rv@ + Seq::<i64>::empty() =~= rv@);
                }
                return Ok(rv);
            }
            let ghost prev = rv@;
            rv.push(self.output);
            proof {
                assert(rv@ + drain(self@).1 =~= prev + (seq![self@.output] + drain(self@).1));
            }
        }
    }
}

} // verus!
