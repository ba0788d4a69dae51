//! A tiny register machine with sixteen byte registers, a call stack and
//! four instructions: add, call, return and halt.

use vstd::prelude::*;

verus! {

pub const NUM_REGISTERS: usize = 16;

pub const STACKSIZE: usize = 16;

pub const MEMSIZE: usize = 0x1000;

/// The register that receives the carry of an addition.
pub const ERRFLAG: usize = 0xF;

/// What one step, or a run of steps, ended in.
#[derive(Clone, Copy, Debug, PartialEq, Eq, Structural)]
pub enum Status {
    /// The instruction was carried out and the next one is due.
    Running,
    /// The halt instruction was read.
    Halted,
    /// The program counter points at the last byte of memory or beyond.
    BadAddress,
    /// The instruction read is none of the four.
    UnknownOpcode,
    /// A call found the stack full.
    StackOverflow,
    /// A return found the stack empty.
    StackUnderflow,
}

/// The machine: memory, registers, program counter and call stack.
pub struct CPU {
    pub memory: [u8; 0x1000],
    pub registers: [u8; 16],
    pub pcounter: u16,
    pub stack: [u16; 16],
    pub stackptr: u16,
}

/// The state of a machine as mathematical values.
pub struct Machine {
    pub memory: Seq<u8>,
    pub registers: Seq<u8>,
    pub pcounter: u16,
    pub stack: Seq<u16>,
    pub stackptr: u16,
}

/// The two bytes at `pc`, the first one in the high half.
pub open spec fn spec_opcode(memory: Seq<u8>, pc: u16) -> u16 {
    ((memory[pc as int] as u16) << 8) | (memory[pc + 1] as u16)
}

/// The four nibbles of an opcode, highest first, and its low twelve bits.
pub open spec fn spec_parse(opcode: u16) -> (u8, u8, u8, u8, u16) {
    (
        ((opcode & 0xF000) >> 12) as u8,
        ((opcode & 0x0F00) >> 8) as u8,
        ((opcode & 0x00F0) >> 4) as u8,
        (opcode & 0x000F) as u8,
        opcode & 0x0FFF,
    )
}

/// The registers after register `y` was added to register `x`: the sum
/// modulo 256 in `x`, then the carry in the flag register.
pub open spec fn spec_add_xy(registers: Seq<u8>, x: u8, y: u8) -> Seq<u8> {
    let sum = registers[x as int] + registers[y as int];
    registers.update(x as int, (sum % 256) as u8).update(
        15,
        if sum > 255 {
            1u8
        } else {
            0u8
        },
    )
}

impl Machine {
    /// Every part has the size that the machine gives it.
    pub open spec fn wf(self) -> bool {
        self.memory.len() == 0x1000 && self.registers.len() == 16 && self.stack.len() == 16
    }

    /// What one step ends in, and the state that it leaves. A step that does
    /// not end in `Running` or `Halted` leaves the state as it was.
    pub open spec fn step(self) -> (Status, Machine) {
        if self.pcounter > 0xFFE {
            (Status::BadAddress, self)
        } else {
            let opcode = spec_opcode(self.memory, self.pcounter);
            let (c, x, y, d, nnn) = spec_parse(opcode);
            let pc = (self.pcounter + 2) as u16;
            if c == 0x8 && d == 0x4 {
                (
                    Status::Running,
                    Machine { registers: spec_add_xy(self.registers, x, y), pcounter: pc, ..self },
                )
            } else if c == 0x2 {
                if self.stackptr >= 15 {
                    (Status::StackOverflow, self)
                } else {
                    (
                        Status::Running,
                        Machine {
                            stack: self.stack.update(self.stackptr as int, pc),
                            stackptr: (self.stackptr + 1) as u16,
                            pcounter: nnn,
                            ..self
                        },
                    )
                }
            } else if y == 0xE && d == 0xE {
                if self.stackptr == 0 {
                    (Status::StackUnderflow, self)
                } else {
                    (
                        Status::Running,
                        Machine {
                            stackptr: (self.stackptr - 1) as u16,
                            pcounter: self.stack[self.stackptr - 1],
                            ..self
                        },
                    )
                }
            } else if c == 0 && x == 0 && y == 0 && d == 0 {
                (Status::Halted, Machine { pcounter: pc, ..self })
            } else {
                (Status::UnknownOpcode, self)
            }
        }
    }

    /// What at most `n` steps end in: `Running` when all `n` were carried out
    /// and none halted or failed, and the state reached.
    pub open spec fn run_for(self, n: nat) -> (Status, Machine)
        decreases n,
    {
        if n == 0 {
            (Status::Running, self)
        } else {
            let (status, next) = self.step();
            if status == Status::Running {
                next.run_for((n - 1) as nat)
            } else {
                (status, next)
            }
        }
    }

    /// The program halts after some number of steps, none of which fails.
    pub open spec fn halts(self) -> bool {
        exists|n: nat| (#[trigger] self.run_for(n)).0 == Status::Halted
    }

    /// A number of steps that is enough to halt, where there is one.
    pub open spec fn steps_to_halt(self) -> nat {
        choose|n: nat| (#[trigger] self.run_for(n)).0 == Status::Halted
    }
}

/// A program halts in one way only: any two numbers of steps that reach the
/// halt instruction end in the same state.
pub proof fn lemma_halt_is_unique(m: Machine, a: nat, b: nat)
    requires
        m.run_for(a).0 == Status::Halted,
        m.run_for(b).0 == Status::Halted,
    ensures
        m.run_for(a) == m.run_for(b),
    decreases a,
{
    if a > 0 && b > 0 {
        let (status, next) = m.step();
        if status == Status::Running {
            lemma_halt_is_unique(next, (a - 1) as nat, (b - 1) as nat);
        }
    }
}

impl View for CPU {
    type V = Machine;

    open spec fn view(&self) -> Machine {
        Machine {
            memory: self.memory@,
            registers: self.registers@,
            pcounter: self.pcounter,
            stack: self.stack@,
            stackptr: self.stackptr,
        }
    }
}

impl CPU {
    /// A machine with all memory, registers and stack slots zero.
    pub fn new() -> (cpu: CPU)
        ensures
            cpu@.wf(),
            cpu@.memory == Seq::new(0x1000, |i: int| 0u8),
            cpu@.registers == Seq::new(16, |i: int| 0u8),
            cpu@.stack == Seq::new(16, |i: int| 0u16),
            cpu@.pcounter == 0,
            cpu@.stackptr == 0,
    {
        let cpu = CPU {
            memory: [0; 0x1000],
            registers: [0; 16],
            pcounter: 0,
            stack: [0; 16],
            stackptr: 0,
        };
        assert(cpu@.memory =~= Seq::new(0x1000, |i: int| 0u8));
        assert(cpu@.registers =~= Seq::new(16, |i: int| 0u8));
        assert(cpu@.stack =~= Seq::new(16, |i: int| 0u16));
        cpu
    }

    /// Reads the opcode at the program counter and moves on by two bytes.
    pub fn read_opcode(&mut self) -> (opcode: u16)
        requires
            old(self).pcounter <= 0xFFE,
        ensures
            opcode == spec_opcode(old(self)@.memory, old(self).pcounter),
            final(self)@ == (Machine { pcounter: (old(self).pcounter + 2) as u16, ..old(self)@ }),
    {
        let a = self.memory[self.pcounter as usize];
        let b = self.memory[(self.pcounter + 1) as usize];
        self.pcounter += 2;
        ((a as u16) << 8) | (b as u16)
    }

    /// Splits an opcode into its four nibbles and its low twelve bits.
    pub fn parse_opcode(opcode: u16) -> (parts: (u8, u8, u8, u8, u16))
        ensures
            parts == spec_parse(opcode),
            parts.0 < 16 && parts.1 < 16 && parts.2 < 16 && parts.3 < 16 && parts.4 < 0x1000,
    {
        assert((opcode & 0xF000) >> 12 < 16) by (bit_vector);
        assert((opcode & 0x0F00) >> 8 < 16) by (bit_vector);
        assert((opcode & 0x00F0) >> 4 < 16) by (bit_vector);
        assert(opcode & 0x000F < 16) by (bit_vector);
        assert(opcode & 0x0FFF < 0x1000) by (bit_vector);
        let c = ((opcode & 0xF000) >> 12) as u8;
        let x = ((opcode & 0x0F00) >> 8) as u8;
        let y = ((opcode & 0x00F0) >> 4) as u8;
        let d = (opcode & 0x000F) as u8;
        let nnn = opcode & 0x0FFF;
        (c, x, y, d, nnn)
    }

    /// Adds register `y` to register `x`, wrapping, and sets the flag
    /// register to the carry.
    pub fn add_xy(&mut self, x: u8, y: u8)
        requires
            x < 16,
            y < 16,
        ensures
            final(self)@ == (Machine {
                registers: spec_add_xy(old(self)@.registers, x, y),
                ..old(self)@
            }),
    {
        let a = self.registers[x as usize];
        let b = self.registers[y as usize];
        let sum: u16 = a as u16 + b as u16;
        let val: u8 = (sum % 256) as u8;
        let overflow: u8 = if sum > 255 { 1 } else { 0 };
        self.registers[x as usize] = val;
        self.registers[ERRFLAG] = overflow;
        assert(self@.registers =~= spec_add_xy(old(self)@.registers, x, y));
    }

    /// Pushes the program counter and jumps to `nnn`.
    pub fn call(&mut self, nnn: u16)
        requires
            old(self).stackptr < 15,
        ensures
            final(self)@ == (Machine {
                stack: old(self)@.stack.update(old(self).stackptr as int, old(self).pcounter),
                stackptr: (old(self).stackptr + 1) as u16,
                pcounter: nnn,
                ..old(self)@
            }),
    {
        self.stack[self.stackptr as usize] = self.pcounter;
        self.stackptr += 1;
        self.pcounter = nnn;
        assert(self@.stack =~= old(self)@.stack.update(
            old(self).stackptr as int,
            old(self).pcounter,
        ));
    }

    /// Pops the program counter that the latest call pushed.
    pub fn ret(&mut self)
        requires
            0 < old(self).stackptr <= 16,
        ensures
            final(self)@ == (Machine {
                stackptr: (old(self).stackptr - 1) as u16,
                pcounter: old(self)@.stack[old(self).stackptr - 1],
                ..old(self)@
            }),
    {
        self.stackptr -= 1;
        self.pcounter = self.stack[self.stackptr as usize];
    }

    /// Carries out the instruction at the program counter.
    pub fn step(&mut self) -> (status: Status)
        requires
            old(self).stackptr <= 16,
        ensures
            (status, final(self)@) == old(self)@.step(),
            final(self).stackptr <= 16,
    {
        if self.pcounter > 0xFFE {
            return Status::BadAddress;
        }
        let start = self.pcounter;
        let opcode = self.read_opcode();
        let (c, x, y, d, nnn) = CPU::parse_opcode(opcode);
        if c == 0x8 && d == 0x4 {
            self.add_xy(x, y);
            Status::Running
        } else if c == 0x2 {
            if self.stackptr >= 15 {
                self.pcounter = start;
                Status::StackOverflow
            } else {
                self.call(nnn);
                Status::Running
            }
        } else if y == 0xE && d == 0xE {
            if self.stackptr == 0 {
                self.pcounter = start;
                Status::StackUnderflow
            } else {
                self.ret();
                Status::Running
            }
        } else if c == 0 && x == 0 && y == 0 && d == 0 {
            Status::Halted
        } else {
            self.pcounter = start;
            Status::UnknownOpcode
        }
    }

    /// Carries out at most `max_steps` instructions and stops early at a halt
    /// or at the first instruction that fails.
    pub fn run_bounded(&mut self, max_steps: u64) -> (status: Status)
        requires
            old(self).stackptr <= 16,
        ensures
            (status, final(self)@) == old(self)@.run_for(max_steps as nat),
            final(self).stackptr <= 16,
    {
        let mut left: u64 = max_steps;
        while left > 0
            invariant
                self.stackptr <= 16,
                self@.run_for(left as nat) == old(self)@.run_for(max_steps as nat),
            decreases left,
        {
            let status = self.step();
            if status != Status::Running {
                return status;
            }
            left -= 1;
        }
        Status::Running
    }

    /// Runs the program to its halt instruction.
    pub fn run(&mut self)
        requires
            old(self).stackptr <= 16,
            old(self)@.halts(),
        ensures
            forall|n: nat|
                (#[trigger] old(self)@.run_for(n)).0 == Status::Halted ==> old(self)@.run_for(n)
                    == (Status::Halted, final(self)@),
    {
        let ghost total = self@.steps_to_halt();
        let ghost left = total;
        loop
            invariant_except_break
                self.stackptr <= 16,
                self@.run_for(left).0 == Status::Halted,
                self@.run_for(left) == old(self)@.run_for(total),
            ensures
                (Status::Halted, self@) == old(self)@.run_for(total),
            decreases left,
        {
            let status = self.step();
            assert(left > 0);
            if status != Status::Running {
                break;
            }
            proof {
                left = (left - 1) as nat;
            }
        }
        proof {
            assert forall|n: nat| (#[trigger] old(self)@.run_for(n)).0 == Status::Halted implies old(
                self,
            )@.run_for(n) == (Status::Halted, self@) by {
                lemma_halt_is_unique(old(self)@, n, total);
            }
        }
    }
}

} // verus!
