use vstd::prelude::*;
use crate::ops::Op;
use crate::ops::lemma_mod256_range;

verus! {

/// Number of byte cells on the tape.
pub const DEFAULT_MEMORY_SIZE: usize = 65536;

/// What one fetch-decode-execute step asks of the outside world.
#[derive(Clone, Copy, Debug, PartialEq, Eq, Structural)]
pub enum StepEffect {
    /// The instruction pointer no longer indexes a valid instruction.
    Halted,
    /// A purely internal instruction ran; nothing is owed to the caller.
    Ran,
    /// An `Output` instruction ran; the byte is the current cell's value.
    Emit(u8),
    /// An `Input` instruction ran; the caller must supply one byte via
    /// `Interpreter::provide_input` (0 when the input stream is exhausted).
    NeedsInput,
}

/// The mathematical state of one run: memory, cursor, instruction pointer,
/// the not-yet-consumed input bytes, and the bytes emitted so far.
pub struct RunState {
    pub mem: Seq<u8>,
    pub mp: int,
    pub ip: int,
    pub inp: Seq<u8>,
    pub outp: Seq<u8>,
}

/// The pure effect of one step on memory, cursor and instruction pointer.
///
/// The cursor wraps modulo the memory size, so the tape is circular: cursor
/// motion is never a fault. Cell arithmetic wraps modulo 256 by design.
pub open spec fn step_core(p: Seq<Op>, mem: Seq<u8>, mp: int, ip: int) -> (Seq<u8>, int, int, StepEffect) {
    if !(0 <= ip < p.len()) {
        (mem, mp, ip, StepEffect::Halted)
    } else {
        let m = DEFAULT_MEMORY_SIZE as int;
        let v = mem[mp];
        let ip1 = ip + 1;
        match p[ip] {
            Op::MoveRight(n) => (mem, (mp + (n as int) % m) % m, ip1, StepEffect::Ran),
            Op::MoveLeft(n) => (mem, (mp + m - (n as int) % m) % m, ip1, StepEffect::Ran),
            Op::Add(n) => (mem.update(mp, ((v + n) % 256) as u8), mp, ip1, StepEffect::Ran),
            Op::Sub(n) => (mem.update(mp, ((v + 256 - n) % 256) as u8), mp, ip1, StepEffect::Ran),
            Op::Output => (mem, mp, ip1, StepEffect::Emit(v)),
            Op::Input => (mem, mp, ip1, StepEffect::NeedsInput),
            Op::OpenLoop(t) => (mem, mp, if v == 0 { t as int } else { ip1 }, StepEffect::Ran),
            Op::CloseLoop(t) => (mem, mp, if v != 0 { t as int } else { ip1 }, StepEffect::Ran),
            Op::Clear => (mem.update(mp, 0), mp, ip1, StepEffect::Ran),
        }
    }
}

/// One step of the full machine, input and output streams included. An
/// `Input` step takes the next input byte, or 0 once the input is exhausted.
pub open spec fn step_state(p: Seq<Op>, s: RunState) -> RunState {
    let (mem, mp, ip, eff) = step_core(p, s.mem, s.mp, s.ip);
    match eff {
        StepEffect::Halted => s,
        StepEffect::Ran => RunState { mem, mp, ip, inp: s.inp, outp: s.outp },
        StepEffect::Emit(b) => RunState { mem, mp, ip, inp: s.inp, outp: s.outp.push(b) },
        StepEffect::NeedsInput => {
            if s.inp.len() > 0 {
                RunState { mem: mem.update(mp, s.inp[0]), mp, ip, inp: s.inp.drop_first(), outp: s.outp }
            } else {
                RunState { mem: mem.update(mp, 0), mp, ip, inp: s.inp, outp: s.outp }
            }
        }
    }
}

/// `n` steps of the machine from state `s`.
pub open spec fn steps(p: Seq<Op>, s: RunState, n: nat) -> RunState
    decreases n,
{
    if n == 0 {
        s
    } else {
        step_state(p, steps(p, s, (n - 1) as nat))
    }
}

/// Whether a state is past the end of the program, i.e. the run is over.
pub open spec fn is_halted(p: Seq<Op>, s: RunState) -> bool {
    !(0 <= s.ip < p.len())
}

/// Steps can also be unrolled from the front.
pub proof fn lemma_steps_front(p: Seq<Op>, s: RunState, n: nat)
    requires
        n >= 1,
    ensures
        steps(p, s, n) == steps(p, step_state(p, s), (n - 1) as nat),
    decreases n,
{
    if n == 1 {
        assert(steps(p, step_state(p, s), 0) == step_state(p, s));
    } else {
        lemma_steps_front(p, s, (n - 1) as nat);
        assert(steps(p, s, n) == step_state(p, steps(p, s, (n - 1) as nat)));
        assert(steps(p, step_state(p, s), (n - 1) as nat)
            == step_state(p, steps(p, step_state(p, s), (n - 2) as nat)));
    }
}

/// A halted state is a fixed point of the machine.
pub proof fn lemma_steps_halted(p: Seq<Op>, s: RunState, n: nat)
    requires
        is_halted(p, s),
    ensures
        steps(p, s, n) == s,
    decreases n,
{
    if n > 0 {
        lemma_steps_halted(p, s, (n - 1) as nat);
    }
}

/// One run's mutable state: the byte memory, the cursor (`mp`) into it, and
/// the instruction pointer (`ip`) into the program being run.
pub struct Interpreter {
    pub memory: Vec<u8>,
    pub mp: usize,
    pub ip: usize,
}

impl Interpreter {
    /// The memory has its fixed size and the cursor is on the tape.
    pub open spec fn wf(self) -> bool {
        &&& self.memory@.len() == DEFAULT_MEMORY_SIZE
        &&& self.mp < DEFAULT_MEMORY_SIZE
    }

    /// The machine state made of this interpreter and the given streams.
    pub open spec fn state_with(self, inp: Seq<u8>, outp: Seq<u8>) -> RunState {
        RunState { mem: self.memory@, mp: self.mp as int, ip: self.ip as int, inp, outp }
    }

    /// A fresh run: all cells zero, cursor and instruction pointer at 0.
    pub fn new() -> (r: Interpreter)
        ensures
            r.wf(),
            r.memory@ == Seq::new(DEFAULT_MEMORY_SIZE as nat, |i: int| 0u8),
            r.mp == 0,
            r.ip == 0,
    {
        let mut memory: Vec<u8> = Vec::new();
        let mut i: usize = 0;
        while i < DEFAULT_MEMORY_SIZE
            invariant
                i <= DEFAULT_MEMORY_SIZE,
                memory@.len() == i,
                forall|j: int| 0 <= j < i ==> memory@[j] == 0u8,
            decreases DEFAULT_MEMORY_SIZE - i,
        {
            memory.push(0);
            i += 1;
        }
        proof {
            assert(memory@ =~= Seq::new(DEFAULT_MEMORY_SIZE as nat, |i: int| 0u8));
        }
        Interpreter { memory, mp: 0, ip: 0 }
    }

    /// One fetch-decode-execute step. The instruction pointer is advanced
    /// first; a taken jump then overwrites it. Output and input are handed
    /// to the caller through the returned effect.
    pub fn step(&mut self, instructions: &[Op]) -> (e: StepEffect)
        requires
            old(self).wf(),
        ensures
            final(self).wf(),
            ({
                let (mem2, mp2, ip2, eff) = step_core(
                    instructions@,
                    old(self).memory@,
                    old(self).mp as int,
                    old(self).ip as int,
                );
                &&& final(self).memory@ == mem2
                &&& final(self).mp as int == mp2
                &&& final(self).ip as int == ip2
                &&& e == eff
            }),
    {
        if self.ip >= instructions.len() {
            return StepEffect::Halted;
        }
        let instr = instructions[self.ip];
        self.ip += 1;
        match instr {
            Op::MoveRight(n) => {
                self.mp = (self.mp + n % DEFAULT_MEMORY_SIZE) % DEFAULT_MEMORY_SIZE;
                StepEffect::Ran
            }
            Op::MoveLeft(n) => {
                self.mp = (self.mp + (DEFAULT_MEMORY_SIZE - n % DEFAULT_MEMORY_SIZE))
                    % DEFAULT_MEMORY_SIZE;
                StepEffect::Ran
            }
            Op::Add(n) => {
                let v = self.memory[self.mp];
                proof {
                    lemma_mod256_range(v as int + n as int);
                }
                self.memory.set(self.mp, v.wrapping_add(n));
                StepEffect::Ran
            }
            Op::Sub(n) => {
                let v = self.memory[self.mp];
                proof {
                    lemma_mod256_range(v as int + 256 - n as int);
                }
                self.memory.set(self.mp, v.wrapping_sub(n));
                StepEffect::Ran
            }
            Op::Output => StepEffect::Emit(self.memory[self.mp]),
            Op::Input => StepEffect::NeedsInput,
            Op::OpenLoop(t) => {
                if self.memory[self.mp] == 0 {
                    self.ip = t;
                }
                StepEffect::Ran
            }
            Op::CloseLoop(t) => {
                if self.memory[self.mp] != 0 {
                    self.ip = t;
                }
                StepEffect::Ran
            }
            Op::Clear => {
                self.memory.set(self.mp, 0);
                StepEffect::Ran
            }
        }
    }

    /// Write one input byte into the current cell; the caller supplies 0
    /// when the input stream is exhausted. Meant to answer a `NeedsInput`.
    pub fn provide_input(&mut self, b: u8)
        requires
            old(self).wf(),
        ensures
            final(self).wf(),
            final(self).memory@ == old(self).memory@.update(old(self).mp as int, b),
            final(self).mp == old(self).mp,
            final(self).ip == old(self).ip,
    {
        self.memory.set(self.mp, b);
    }

    /// Run the program to completion or until the step budget is spent,
    /// taking input bytes from `input` (0 once it is exhausted) and
    /// collecting the emitted bytes. The second result is true when the
    /// program halted within the budget.
    pub fn execute(&mut self, instructions: &[Op], input: &[u8], max_steps: usize) -> (r: (
        Vec<u8>,
        bool,
    ))
        requires
            old(self).wf(),
        ensures
            final(self).wf(),
            ({
                let s0 = old(self).state_with(input@, Seq::empty());
                let n = steps_to_halt(instructions@, s0, max_steps as nat);
                let f = steps(instructions@, s0, n);
                &&& final(self).memory@ == f.mem
                &&& final(self).mp as int == f.mp
                &&& final(self).ip as int == f.ip
                &&& r.0@ == f.outp
                &&& (r.1 <==> is_halted(instructions@, f))
            }),
    {
        let mut out: Vec<u8> = Vec::new();
        let mut pos: usize = 0;
        let mut k: usize = 0;
        let ghost s0 = old(self).state_with(input@, Seq::empty());
        proof {
            assert(input@.skip(0) =~= input@);
        }
        while k < max_steps
            invariant
                self.wf(),
                k <= max_steps,
                pos <= input@.len(),
                s0 == old(self).state_with(input@, Seq::empty()),
                steps(instructions@, s0, k as nat) == self.state_with(
                    input@.skip(pos as int),
                    out@,
                ),
                steps_to_halt(instructions@, s0, max_steps as nat) == k + steps_to_halt(
                    instructions@,
                    self.state_with(input@.skip(pos as int), out@),
                    (max_steps - k) as nat,
                ),
            decreases max_steps - k,
        {
            let ghost pre = self.state_with(input@.skip(pos as int), out@);
            if self.ip >= instructions.len() {
                proof {
                    assert(steps_to_halt(instructions@, pre, (max_steps - k) as nat) == 0);
                }
                return (out, true);
            }
            let e = self.step(instructions);
            match e {
                StepEffect::Emit(b) => {
                    out.push(b);
                }
                StepEffect::NeedsInput => {
                    let b: u8 = if pos < input.len() {
                        let b0 = input[pos];
                        proof {
                            assert(pre.inp[0] == input@[pos as int]);
                            assert(input@.skip(pos as int).drop_first() =~= input@.skip(
                                pos as int + 1,
                            ));
                        }
                        pos += 1;
                        b0
                    } else {
                        proof {
                            assert(pre.inp.len() == 0);
                        }
                        0
                    };
                    self.provide_input(b);
                }
                _ => {}
            }
            k += 1;
            proof {
                lemma_steps_front_shift(instructions@, s0, k as nat, pre);
                assert(step_state(instructions@, pre) == self.state_with(
                    input@.skip(pos as int),
                    out@,
                ));
                assert(steps_to_halt(instructions@, pre, (max_steps - (k - 1)) as nat) == 1
                    + steps_to_halt(
                    instructions@,
                    step_state(instructions@, pre),
                    (max_steps - k) as nat,
                ));
            }
        }
        let halted = self.ip >= instructions.len();
        proof {
            assert(steps_to_halt(
                instructions@,
                self.state_with(input@.skip(pos as int), out@),
                0,
            ) == 0);
        }
        (out, halted)
    }
}

/// How many fetch-decode-execute steps a run takes from state `s`: it stops
/// at the first halted state, or when the step budget is spent.
pub open spec fn steps_to_halt(p: Seq<Op>, s: RunState, budget: nat) -> nat
    decreases budget,
{
    if budget == 0 || is_halted(p, s) {
        0
    } else {
        1 + steps_to_halt(p, step_state(p, s), (budget - 1) as nat)
    }
}

/// The state after `n` steps is one step past the state after `n - 1`.
proof fn lemma_steps_front_shift(p: Seq<Op>, s0: RunState, n: nat, pre: RunState)
    requires
        n >= 1,
        steps(p, s0, (n - 1) as nat) == pre,
    ensures
        steps(p, s0, n) == step_state(p, pre),
{
}

} // verus!
