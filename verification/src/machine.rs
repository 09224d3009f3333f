//! The machine that runs an assembled program: a register file, a program
//! counter, and one transition per instruction.

use vstd::prelude::*;

use crate::assembler::Program;
use crate::program::{Instruction, Label, Variable};

verus! {

// =================================================================================================
// Registers
// =================================================================================================

/// What a [`State`] stands for.
pub struct StateView {
    /// The input registers: `x<n>` is at index `n - 1`.
    pub x: Seq<usize>,
    /// The temporary registers: `z<n>` is at index `n - 1`.
    pub z: Seq<usize>,
    /// The accumulator.
    pub y: usize,
    /// The index of the next instruction.
    pub pc: usize,
}

/// The register at index `n`, counted from 1, of a store: a register beyond
/// the end of the store holds 0.
pub open spec fn loaded(store: Seq<usize>, n: usize) -> usize {
    if 1 <= n <= store.len() {
        store[n - 1]
    } else {
        0
    }
}

/// A store after `value` is written to index `n`, counted from 1: the store
/// grows to `n` registers where it was shorter, and the new registers before
/// the one written hold 0.
pub open spec fn stored(store: Seq<usize>, n: usize, value: usize) -> Seq<usize> {
    if n <= store.len() {
        store.update(n - 1, value)
    } else {
        store + Seq::new((n - 1 - store.len()) as nat, |i: int| 0usize).push(value)
    }
}

impl StateView {
    /// The value of a register.
    pub open spec fn get(self, var: Variable) -> usize {
        match var {
            Variable::X(n) => loaded(self.x, n),
            Variable::Y => self.y,
            Variable::Z(n) => loaded(self.z, n),
        }
    }

    /// The state after `value` is written to a register.
    pub open spec fn set(self, var: Variable, value: usize) -> StateView {
        match var {
            Variable::X(n) => StateView { x: stored(self.x, n, value), ..self },
            Variable::Y => StateView { y: value, ..self },
            Variable::Z(n) => StateView { z: stored(self.z, n, value), ..self },
        }
    }
}

/// A store that is written grows to the index written and no further; what
/// it held stays, what is new before the index holds 0.
pub proof fn lemma_stored(store: Seq<usize>, n: usize, value: usize)
    requires
        n >= 1,
    ensures
        stored(store, n, value).len() == if n <= store.len() {
            store.len()
        } else {
            n as nat
        },
        stored(store, n, value)[n - 1] == value,
        forall|i: int|
            0 <= i < store.len() && i != n - 1 ==> stored(store, n, value)[i] == store[i],
        forall|i: int| store.len() <= i < n - 1 ==> stored(store, n, value)[i] == 0,
{
}

/// A register holds what was written to it last, and writing to one register
/// changes no other.
pub proof fn lemma_get_set(s: StateView, var: Variable, value: usize, other: Variable)
    requires
        var.well_formed(),
        other.well_formed(),
    ensures
        s.set(var, value).get(var) == value,
        other != var ==> s.set(var, value).get(other) == s.get(other),
        s.set(var, value).pc == s.pc,
{
    match var {
        Variable::X(n) => lemma_stored(s.x, n, value),
        Variable::Y => {},
        Variable::Z(n) => lemma_stored(s.z, n, value),
    }
}

/// The registers and the program counter of a run.
#[derive(Debug)]
pub struct State {
    x: Vec<usize>,
    z: Vec<usize>,
    y: usize,
    pub pc: usize,
}

impl View for State {
    type V = StateView;

    closed spec fn view(&self) -> StateView {
        StateView { x: self.x@, z: self.z@, y: self.y, pc: self.pc }
    }
}

/// Reads a register of a store.
fn load(store: &Vec<usize>, n: usize) -> (r: usize)
    requires
        n >= 1,
    ensures
        r == loaded(store@, n),
{
    if n <= store.len() {
        store[n - 1]
    } else {
        0
    }
}

/// Writes a register of a store.
fn store_at(store: &mut Vec<usize>, n: usize, value: usize)
    requires
        n >= 1,
    ensures
        final(store)@ == stored(old(store)@, n, value),
{
    if n <= store.len() {
        store.set(n - 1, value);
    } else {
        let ghost before = store@;
        while store.len() < n - 1
            invariant
                n >= 1,
                before.len() <= store.len() <= n - 1,
                store@ == before + Seq::new((store.len() - before.len()) as nat, |i: int| 0usize),
            decreases n - 1 - store.len(),
        {
            store.push(0);
        }
        store.push(value);
    }
}

impl State {
    /// The state at the start of a run: the given values in `x1`, `x2` and so
    /// on, 0 in every other register, and the program counter at 0.
    pub fn from_vars(vars: Vec<usize>) -> (s: Self)
        ensures
            s@ == (StateView { x: vars@, z: Seq::empty(), y: 0, pc: 0 }),
    {
        State { x: vars, z: Vec::new(), y: 0, pc: 0 }
    }

    /// Reads a register. A register that was never written holds 0.
    pub fn get_var(&self, var: &Variable) -> (value: usize)
        requires
            var.well_formed(),
        ensures
            value == self@.get(*var),
    {
        match var {
            Variable::X(n) => load(&self.x, *n),
            Variable::Z(n) => load(&self.z, *n),
            Variable::Y => self.y,
        }
    }

    /// Writes a register.
    pub fn set_var(&mut self, var: &Variable, value: usize)
        requires
            var.well_formed(),
        ensures
            final(self)@ == old(self)@.set(*var, value),
    {
        match var {
            Variable::X(n) => store_at(&mut self.x, *n, value),
            Variable::Z(n) => store_at(&mut self.z, *n, value),
            Variable::Y => self.y = value,
        }
    }

    /// The index of the next instruction.
    pub fn counter(&self) -> (pc: usize)
        ensures
            pc == self@.pc,
    {
        self.pc
    }
}

// =================================================================================================
// The machine
// =================================================================================================

/// What a `print` or a `state` instruction hands out.
#[derive(Debug, PartialEq, Eq)]
pub enum Emission {
    /// The value of the register that was printed.
    Value(usize),
    /// All registers.
    Snapshot { x: Vec<usize>, y: usize, z: Vec<usize> },
}

/// What an [`Emission`] stands for.
pub enum EmissionView {
    /// The value of the register that was printed.
    Value(usize),
    /// All registers.
    Snapshot { x: Seq<usize>, y: usize, z: Seq<usize> },
}

impl View for Emission {
    type V = EmissionView;

    open spec fn view(&self) -> EmissionView {
        match *self {
            Emission::Value(v) => EmissionView::Value(v),
            Emission::Snapshot { x, y, z } => EmissionView::Snapshot { x: x@, y, z: z@ },
        }
    }
}

/// What a list of emissions stands for.
pub open spec fn emission_views(list: Seq<Emission>) -> Seq<EmissionView> {
    list.map_values(|e: Emission| e@)
}

/// What a [`Machine`] stands for, beside its program.
pub struct MachineView {
    /// The registers and the program counter.
    pub state: StateView,
    /// What the run has handed out so far, oldest first.
    pub output: Seq<EmissionView>,
}

/// One more than `n`, but for the largest number, which stays.
pub open spec fn successor(n: usize) -> usize {
    if n < usize::MAX {
        (n + 1) as usize
    } else {
        n
    }
}

/// One less than `n`, but for 0, which stays.
pub open spec fn predecessor(n: usize) -> usize {
    if n > 0 {
        (n - 1) as usize
    } else {
        0
    }
}

/// Where a jump to `to` leads: to the instruction that the label stands
/// before, or behind the last instruction where the label is not defined.
pub open spec fn target(
    instructions: Seq<Instruction>,
    labels: Map<usize, usize>,
    to: Label,
) -> usize {
    if labels.contains_key(to.key()) {
        labels[to.key()]
    } else {
        instructions.len() as usize
    }
}

/// The machine after one step. A machine whose program counter is behind the
/// last instruction has halted and stays as it is.
pub open spec fn stepped(
    instructions: Seq<Instruction>,
    labels: Map<usize, usize>,
    m: MachineView,
) -> MachineView {
    let s = m.state;
    let next = (s.pc + 1) as usize;
    if s.pc >= instructions.len() {
        m
    } else {
        match instructions[s.pc as int] {
            Instruction::Increment { var } => MachineView {
                state: StateView { pc: next, ..s.set(var, successor(s.get(var))) },
                output: m.output,
            },
            Instruction::Decrement { var } => MachineView {
                state: StateView {
                    pc: next,
                    ..if s.get(var) > 0 {
                        s.set(var, predecessor(s.get(var)))
                    } else {
                        s
                    }
                },
                output: m.output,
            },
            Instruction::JumpNonZero { var, to } => MachineView {
                state: StateView {
                    pc: if s.get(var) > 0 {
                        target(instructions, labels, to)
                    } else {
                        next
                    },
                    ..s
                },
                output: m.output,
            },
            Instruction::Nop => MachineView {
                state: StateView { pc: next, ..s },
                output: m.output,
            },
            Instruction::Print { var } => MachineView {
                state: StateView { pc: next, ..s },
                output: m.output.push(EmissionView::Value(s.get(var))),
            },
            Instruction::State => MachineView {
                state: StateView { pc: next, ..s },
                output: m.output.push(EmissionView::Snapshot { x: s.x, y: s.y, z: s.z }),
            },
        }
    }
}

/// The machine after `n` steps.
pub open spec fn stepped_times(
    instructions: Seq<Instruction>,
    labels: Map<usize, usize>,
    m: MachineView,
    n: nat,
) -> MachineView
    decreases n,
{
    if n == 0 {
        m
    } else {
        stepped_times(instructions, labels, stepped(instructions, labels, m), (n - 1) as nat)
    }
}

/// Decrementing a register that holds 0 leaves every register as it is, and
/// the machine goes on with the next instruction.
pub proof fn lemma_decrement_at_zero(
    instructions: Seq<Instruction>,
    labels: Map<usize, usize>,
    m: MachineView,
    var: Variable,
)
    requires
        m.state.pc < instructions.len(),
        instructions[m.state.pc as int] == (Instruction::Decrement { var }),
        m.state.get(var) == 0,
    ensures
        stepped(instructions, labels, m).state == (StateView {
            pc: (m.state.pc + 1) as usize,
            ..m.state
        }),
        stepped(instructions, labels, m).state.get(var) == 0,
        stepped(instructions, labels, m).output == m.output,
{
}

/// A register that was never written holds 0: at the start of a run, every
/// register but the inputs given.
pub proof fn lemma_unset_register(vars: Seq<usize>, var: Variable)
    requires
        var.well_formed(),
    ensures
        (StateView { x: vars, z: Seq::empty(), y: 0, pc: 0 }).get(var) == match var {
            Variable::X(n) => if n <= vars.len() {
                vars[n - 1]
            } else {
                0
            },
            Variable::Y => 0,
            Variable::Z(n) => 0,
        },
{
}

/// A jump that is taken to a label that is defined nowhere halts the
/// machine: the program counter stands behind the last instruction, the
/// registers are as they were, and no further step changes anything.
pub proof fn lemma_jump_to_undefined(
    instructions: Seq<Instruction>,
    labels: Map<usize, usize>,
    m: MachineView,
    var: Variable,
    to: Label,
    n: nat,
)
    requires
        m.state.pc < instructions.len() <= usize::MAX,
        instructions[m.state.pc as int] == (Instruction::JumpNonZero { var, to }),
        m.state.get(var) > 0,
        !labels.contains_key(to.key()),
    ensures
        stepped(instructions, labels, m) == (MachineView {
            state: StateView { pc: instructions.len() as usize, ..m.state },
            output: m.output,
        }),
        stepped_times(instructions, labels, stepped(instructions, labels, m), n) == stepped(
            instructions,
            labels,
            m,
        ),
{
    lemma_halted_stays(instructions, labels, stepped(instructions, labels, m), n);
}

/// A machine that has halted stays as it is, however many steps follow.
pub proof fn lemma_halted_stays(
    instructions: Seq<Instruction>,
    labels: Map<usize, usize>,
    m: MachineView,
    n: nat,
)
    requires
        m.state.pc >= instructions.len(),
    ensures
        stepped_times(instructions, labels, m, n) == m,
    decreases n,
{
    if n > 0 {
        lemma_halted_stays(instructions, labels, m, (n - 1) as nat);
    }
}

/// Steps add up: `a + b` steps are `a` steps and then `b` steps.
pub proof fn lemma_steps_add(
    instructions: Seq<Instruction>,
    labels: Map<usize, usize>,
    m: MachineView,
    a: nat,
    b: nat,
)
    ensures
        stepped_times(instructions, labels, m, a + b) == stepped_times(
            instructions,
            labels,
            stepped_times(instructions, labels, m, a),
            b,
        ),
    decreases a,
{
    if a > 0 {
        lemma_steps_add(instructions, labels, stepped(instructions, labels, m), (a - 1) as nat, b);
        assert((a - 1) as nat + b == (a + b - 1) as nat);
    }
}

/// A program and the state of its run.
pub struct Machine<'a> {
    state: State,
    program: &'a Program,
    output: Vec<Emission>,
}

impl<'a> View for Machine<'a> {
    type V = MachineView;

    closed spec fn view(&self) -> MachineView {
        MachineView { state: self.state@, output: emission_views(self.output@) }
    }
}

impl<'a> Machine<'a> {
    /// The program that the machine runs.
    pub closed spec fn program(&self) -> &'a Program {
        self.program
    }

    /// The machine that is about to run `program` from `initial_state`.
    pub fn new(initial_state: State, program: &'a Program) -> (m: Self)
        requires
            program.well_formed(),
        ensures
            m@ == (MachineView { state: initial_state@, output: Seq::empty() }),
            m.program() == program,
    {
        let m = Machine { state: initial_state, program, output: Vec::new() };
        assert(emission_views(m.output@) =~= Seq::empty());
        m
    }

    /// The registers and the program counter.
    pub fn state(&self) -> (s: &State)
        ensures
            s@ == self@.state,
    {
        &self.state
    }

    /// Whether the program counter is behind the last instruction.
    pub fn halted(&self) -> (b: bool)
        ensures
            b == (self@.state.pc >= self.program().instructions@.len()),
    {
        self.state.pc >= self.program.instructions.len()
    }

    /// What the run has handed out so far, oldest first.
    pub fn output(&self) -> (list: &Vec<Emission>)
        ensures
            emission_views(list@) == self@.output,
    {
        &self.output
    }

    /// Does one step: the instruction at the program counter.
    pub fn step(&mut self)
        requires
            old(self).program().well_formed(),
        ensures
            final(self).program() == old(self).program(),
            final(self)@ == stepped(
                old(self).program().instructions@,
                old(self).program().labels@,
                old(self)@,
            ),
    {
        let program = self.program;
        if self.state.pc >= program.instructions.len() {
            return ;
        }
        let instruction = program.instructions[self.state.pc];
        let next: usize = self.state.pc + 1;
        match instruction {
            Instruction::Increment { var } => {
                let value = self.state.get_var(&var);
                let more: usize = if value < usize::MAX {
                    value + 1
                } else {
                    value
                };
                self.state.set_var(&var, more);
                self.state.pc = next;
            },
            Instruction::Decrement { var } => {
                let value = self.state.get_var(&var);
                if value > 0 {
                    self.state.set_var(&var, value - 1);
                }
                self.state.pc = next;
            },
            Instruction::JumpNonZero { var, to } => {
                if self.state.get_var(&var) > 0 {
                    let key = to.key();
                    self.state.pc = match program.labels.get(&key) {
                        Some(at) => *at,
                        None => program.instructions.len(),
                    };
                } else {
                    self.state.pc = next;
                }
            },
            Instruction::Nop => {
                self.state.pc = next;
            },
            Instruction::Print { var } => {
                let ghost before = self.output@;
                let e = Emission::Value(self.state.get_var(&var));
                self.output.push(e);
                assert(emission_views(self.output@) =~= emission_views(before).push(e@));
                self.state.pc = next;
            },
            Instruction::State => {
                let ghost before = self.output@;
                let e = Emission::Snapshot {
                    x: copy_of(&self.state.x),
                    y: self.state.y,
                    z: copy_of(&self.state.z),
                };
                self.output.push(e);
                assert(emission_views(self.output@) =~= emission_views(before).push(e@));
                self.state.pc = next;
            },
        }
    }

    /// Steps until the machine halts, but `max_steps` times at most, and says
    /// whether it has halted.
    pub fn run(&mut self, max_steps: usize) -> (halted: bool)
        requires
            old(self).program().well_formed(),
        ensures
            final(self).program() == old(self).program(),
            final(self)@ == stepped_times(
                old(self).program().instructions@,
                old(self).program().labels@,
                old(self)@,
                max_steps as nat,
            ),
            halted == (final(self)@.state.pc >= old(self).program().instructions@.len()),
    {
        let ghost instructions = self.program().instructions@;
        let ghost labels = self.program().labels@;
        let mut left: usize = max_steps;
        while left > 0 && !self.halted()
            invariant
                self.program() == old(self).program(),
                self.program().well_formed(),
                instructions == old(self).program().instructions@,
                labels == old(self).program().labels@,
                stepped_times(instructions, labels, self@, left as nat) == stepped_times(
                    instructions,
                    labels,
                    old(self)@,
                    max_steps as nat,
                ),
            decreases left,
        {
            self.step();
            left -= 1;
        }
        proof {
            if left > 0 {
                lemma_halted_stays(instructions, labels, self@, left as nat);
            }
        }
        self.halted()
    }
}

/// A copy of a store.
fn copy_of(store: &Vec<usize>) -> (r: Vec<usize>)
    ensures
        r@ == store@,
{
    let mut r: Vec<usize> = Vec::new();
    let mut i: usize = 0;
    while i < store.len()
        invariant
            i <= store.len(),
            r@ == store@.take(i as int),
        decreases store.len() - i,
    {
        r.push(store[i]);
        i += 1;
    }
    assert(store@.take(store.len() as int) =~= store@);
    r
}

} // verus!
