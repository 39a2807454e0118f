use vstd::prelude::*;

use super::argument::{
    spec_argument_named, spec_argument_text, spec_read_register, Argument, NumberSource,
};
use super::computer::{
    spec_buffered_write_check, spec_lookup, spec_registers_times_within, Register,
    RegisterAccessError, RegisterSet, RegisterView,
};
use super::integer::{
    lemma_range_of_digits_bounds, spec_largest_magnitude, AssignIntegerError, BiggerInteger, Integer,
    MAXIMUM_DIGITS,
};
use super::text::{chars_equal, chars_of, push_str, string_from_chars};

verus! {

/// Every instruction has exactly this many argument slots.
pub const NUM_ARGUMENTS: usize = 3;

/// The value read from each argument slot, if the slot produced one.
pub type ArgumentValues = [Option<Integer>; 3];

/// The number of instruction kinds.
pub const NUM_INSTRUCTION_KINDS: usize = 19;

#[derive(Clone, Copy, Debug)]
pub struct Instruction {
    pub kind: InstructionKind,
    pub line: u32,
    pub arguments: [Argument; 3],
}

#[derive(Clone, Copy, Debug, PartialEq, Eq, Structural)]
pub enum InstructionKind {
    SetRegister,
    Add,
    Subtract,
    Negate,
    Multiply,
    Divide,
    Modulus,
    IsOdd,
    Compare,
    CompareSetIfTrue,
    CompareSetIfFalse,
    Jump,
    JumpCondLikely,
    JumpCondUnlikely,
    Sleep,
    End,
    TryRead,
    TryWrite,
    Clock,
}

impl InstructionKind {
    /// The position of the kind in declaration order.
    pub open spec fn spec_index(self) -> int {
        match self {
            InstructionKind::SetRegister => 0,
            InstructionKind::Add => 1,
            InstructionKind::Subtract => 2,
            InstructionKind::Negate => 3,
            InstructionKind::Multiply => 4,
            InstructionKind::Divide => 5,
            InstructionKind::Modulus => 6,
            InstructionKind::IsOdd => 7,
            InstructionKind::Compare => 8,
            InstructionKind::CompareSetIfTrue => 9,
            InstructionKind::CompareSetIfFalse => 10,
            InstructionKind::Jump => 11,
            InstructionKind::JumpCondLikely => 12,
            InstructionKind::JumpCondUnlikely => 13,
            InstructionKind::Sleep => 14,
            InstructionKind::End => 15,
            InstructionKind::TryRead => 16,
            InstructionKind::TryWrite => 17,
            InstructionKind::Clock => 18,
        }
    }

    /// The kind at a position in declaration order.
    pub open spec fn spec_from_index(index: int) -> InstructionKind {
        if index == 0 {
            InstructionKind::SetRegister
        } else if index == 1 {
            InstructionKind::Add
        } else if index == 2 {
            InstructionKind::Subtract
        } else if index == 3 {
            InstructionKind::Negate
        } else if index == 4 {
            InstructionKind::Multiply
        } else if index == 5 {
            InstructionKind::Divide
        } else if index == 6 {
            InstructionKind::Modulus
        } else if index == 7 {
            InstructionKind::IsOdd
        } else if index == 8 {
            InstructionKind::Compare
        } else if index == 9 {
            InstructionKind::CompareSetIfTrue
        } else if index == 10 {
            InstructionKind::CompareSetIfFalse
        } else if index == 11 {
            InstructionKind::Jump
        } else if index == 12 {
            InstructionKind::JumpCondLikely
        } else if index == 13 {
            InstructionKind::JumpCondUnlikely
        } else if index == 14 {
            InstructionKind::Sleep
        } else if index == 15 {
            InstructionKind::End
        } else if index == 16 {
            InstructionKind::TryRead
        } else if index == 17 {
            InstructionKind::TryWrite
        } else {
            InstructionKind::Clock
        }
    }

    pub fn index(self) -> (result: usize)
        ensures
            result == self.spec_index(),
            result < NUM_INSTRUCTION_KINDS,
    {
        match self {
            InstructionKind::SetRegister => 0,
            InstructionKind::Add => 1,
            InstructionKind::Subtract => 2,
            InstructionKind::Negate => 3,
            InstructionKind::Multiply => 4,
            InstructionKind::Divide => 5,
            InstructionKind::Modulus => 6,
            InstructionKind::IsOdd => 7,
            InstructionKind::Compare => 8,
            InstructionKind::CompareSetIfTrue => 9,
            InstructionKind::CompareSetIfFalse => 10,
            InstructionKind::Jump => 11,
            InstructionKind::JumpCondLikely => 12,
            InstructionKind::JumpCondUnlikely => 13,
            InstructionKind::Sleep => 14,
            InstructionKind::End => 15,
            InstructionKind::TryRead => 16,
            InstructionKind::TryWrite => 17,
            InstructionKind::Clock => 18,
        }
    }
}

/// Positions and kinds correspond one to one.
pub proof fn lemma_kind_index_bijection(kind: InstructionKind, index: int)
    ensures
        0 <= kind.spec_index() < NUM_INSTRUCTION_KINDS,
        InstructionKind::spec_from_index(kind.spec_index()) == kind,
        0 <= index < NUM_INSTRUCTION_KINDS ==> InstructionKind::spec_from_index(index).spec_index()
            == index,
{
}

#[allow(inconsistent_fields)]
#[derive(Clone, Copy, Debug, PartialEq, Eq, Structural)]
pub enum InstructionEvaluationInterrupt {
    RegisterError { register: u32, error: RegisterAccessError },
    ArithmaticError { error: ArithmaticError },
    ProgramComplete,
    RuntimeCounterOverflow,
    EnergyCounterOverflow,
}

#[derive(Clone, Copy, Debug, PartialEq, Eq, Structural)]
pub enum ArithmaticError {
    DivideByZero,
}

#[derive(Clone, Copy, Debug, PartialEq, Eq, Structural)]
pub enum ArgumentRequirement {
    Constant,
    RegisterWriteOnly,
    Register,
    ConstantOrRegister,
    Comparison,
    AnyValue,
    AnyValueOrEmpty,
    Instruction,
    ConstantOrEmpty,
    Empty,
}

impl ArgumentRequirement {
    pub open spec fn spec_allows_empty(self) -> bool {
        self is Empty || self is AnyValueOrEmpty || self is ConstantOrEmpty
    }

    pub fn allows_empty(self) -> (result: bool)
        ensures
            result == self.spec_allows_empty(),
    {
        matches!(
            self,
            ArgumentRequirement::Empty | ArgumentRequirement::AnyValueOrEmpty
                | ArgumentRequirement::ConstantOrEmpty
        )
    }
}


#[derive(Clone, Copy, Debug)]
pub struct InstructionKindMap<T>(pub [T; 19]);

impl<T> InstructionKindMap<T> {
    /// The entry for a kind.
    pub open spec fn spec_get(self, kind: InstructionKind) -> T {
        self.0@[kind.spec_index()]
    }

    pub fn from_element(element: T) -> (result: Self) where T: Copy
        ensures
            forall|kind: InstructionKind| #[trigger] result.spec_get(kind) == element,
            result.0@ == Seq::new(NUM_INSTRUCTION_KINDS as nat, |i: int| element),
    {
        InstructionKindMap([element; 19])
    }

    pub fn get(&self, kind: InstructionKind) -> (result: &T)
        ensures
            *result == self.spec_get(kind),
    {
        &self.0[kind.index()]
    }

    pub fn get_mut(&mut self, kind: InstructionKind) -> (result: &mut T)
        ensures
            *result == old(self).spec_get(kind),
            final(self).0@ == old(self).0@.update(kind.spec_index(), *final(result)),
    {
        &mut self.0[kind.index()]
    }

    /// Replaces the entry for a kind.
    pub fn set(&mut self, kind: InstructionKind, value: T)
        ensures
            final(self).0@ == old(self).0@.update(kind.spec_index(), value),
    {
        self.0[kind.index()] = value;
    }
}

#[derive(Clone, Copy, Debug, PartialEq, Eq, Structural)]
pub enum PropertyCondition {
    SameAsPrevious { kind: InstructionKind, allow_cascade: bool },
    ArgumentMatches { argument: usize, value: Integer },
    ArgumentTypeMatches { argument: usize, requirement: ArgumentRequirement },
    Always,
}

/// Whether two argument value lists are equal, slot by slot.
pub fn argument_values_equal(a: &ArgumentValues, b: &ArgumentValues) -> (result: bool)
    ensures
        result == (a@ == b@),
{
    let result = a[0] == b[0] && a[1] == b[1] && a[2] == b[2];
    proof {
        if result {
            assert(a@ =~= b@);
        }
    }
    result
}

/// The previously executed instruction and its argument values, by value.
pub open spec fn spec_previous(previous_instruction: Option<(&Instruction, &ArgumentValues)>) -> Option<
    (Instruction, ArgumentValues),
> {
    match previous_instruction {
        Some((previous, values)) => Some((*previous, *values)),
        None => None,
    }
}

/// Every kind's entry can describe that kind, in a form the simulator can
/// evaluate.
pub open spec fn spec_instruction_table_wf(table: InstructionKindMap<InstructionProperties>) -> bool {
    forall|kind: InstructionKind| #![trigger table.spec_get(kind)] table.spec_get(kind).wf_for(kind)
}

impl PropertyCondition {
    /// The argument slots the condition inspects exist.
    pub open spec fn wf(self, num_arguments: int) -> bool {
        match self {
            PropertyCondition::ArgumentMatches { argument, .. } => argument < NUM_ARGUMENTS,
            PropertyCondition::ArgumentTypeMatches { argument, .. } => argument < num_arguments,
            _ => true,
        }
    }

    pub open spec fn spec_matches_context(
        self,
        previous_instruction: Option<(Instruction, ArgumentValues)>,
        arguments: Seq<Argument>,
        argument_values: ArgumentValues,
    ) -> bool {
        match self {
            PropertyCondition::SameAsPrevious { kind, .. } => match previous_instruction {
                Some((previous, previous_values)) => previous.kind == kind && previous_values@
                    == argument_values@,
                None => false,
            },
            PropertyCondition::ArgumentMatches { argument, value } => argument_values@[argument as int]
                == Some(value),
            PropertyCondition::ArgumentTypeMatches { argument, requirement } => arguments[argument as int].spec_matches_requirement(requirement),
            PropertyCondition::Always => true,
        }
    }

    pub fn matches_context<const N: usize>(
        &self,
        previous_instruction: Option<(&Instruction, &ArgumentValues)>,
        arguments: [Argument; N],
        argument_values: &ArgumentValues,
    ) -> (result: bool)
        requires
            self.wf(N as int),
        ensures
            result == self.spec_matches_context(
                spec_previous(previous_instruction),
                arguments@,
                *argument_values,
            ),
    {
        match self {
            PropertyCondition::SameAsPrevious { kind, .. } => match previous_instruction {
                Some((previous_instruction, previous_argument_values)) => {
                    previous_instruction.kind == *kind && argument_values_equal(
                        previous_argument_values,
                        argument_values,
                    )
                },
                None => false,
            },
            PropertyCondition::ArgumentMatches { argument, value } => {
                argument_values[*argument] == Some(*value)
            },
            PropertyCondition::ArgumentTypeMatches { argument, requirement } => {
                arguments[*argument].matches_requirement(*requirement)
            },
            PropertyCondition::Always => true,
        }
    }

    pub open spec fn spec_allows_cascade(self) -> bool {
        match self {
            PropertyCondition::SameAsPrevious { allow_cascade, .. } => allow_cascade,
            _ => true,
        }
    }

    pub fn allows_cascade(&self) -> (result: bool)
        ensures
            result == self.spec_allows_cascade(),
    {
        match self {
            PropertyCondition::SameAsPrevious { allow_cascade, .. } => *allow_cascade,
            _ => true,
        }
    }
}

#[derive(Clone, Copy, Debug)]
pub struct InstructionProperties {
    pub kind: InstructionKind,
    pub name: &'static str,
    pub arguments: [ArgumentRequirement; 3],
    pub base_time: u32,
    pub conditional_time: Option<(u32, PropertyCondition)>,
    pub base_energy: u32,
    pub conditional_energy: Option<u32>,
    pub calls_per_tick_limit: Option<u8>,
    pub group: Option<(InstructionKind, PropertyCondition)>,
}

/// Whether the requirement makes the argument's value available.
pub open spec fn spec_provides_value(requirement: ArgumentRequirement) -> bool {
    requirement is Constant || requirement is Register || requirement is ConstantOrRegister
        || requirement is Comparison || requirement is AnyValue
}

/// Whether the requirement makes the argument a register.
pub open spec fn spec_names_register(requirement: ArgumentRequirement) -> bool {
    requirement is Register || requirement is RegisterWriteOnly
}

/// Whether argument slots with these requirements give an instruction of this
/// kind everything its evaluation reads: the values it computes with, the
/// registers it writes, and the label it jumps to.
pub open spec fn spec_supports_kind(kind: InstructionKind, arguments: [ArgumentRequirement; 3]) -> bool {
    let a = arguments@;
    match kind {
        InstructionKind::SetRegister => spec_names_register(a[0]) && spec_provides_value(a[1]),
        InstructionKind::Add | InstructionKind::Subtract | InstructionKind::Multiply
        | InstructionKind::Divide | InstructionKind::Modulus => spec_provides_value(a[0])
            && spec_provides_value(a[1]) && spec_names_register(a[2]),
        InstructionKind::Negate | InstructionKind::IsOdd => a[0] is Register,
        InstructionKind::Compare | InstructionKind::CompareSetIfTrue
        | InstructionKind::CompareSetIfFalse => spec_provides_value(a[0]) && spec_names_register(
            a[1],
        ),
        InstructionKind::Jump | InstructionKind::JumpCondLikely
        | InstructionKind::JumpCondUnlikely => a[1] is Instruction,
        InstructionKind::Sleep => spec_provides_value(a[0]),
        InstructionKind::End | InstructionKind::TryRead => true,
        InstructionKind::TryWrite | InstructionKind::Clock => spec_names_register(a[0]),
    }
}

/// One for a slot that must be filled, zero for one that may stay empty.
pub open spec fn spec_required_slot(requirement: ArgumentRequirement) -> nat {
    if requirement.spec_allows_empty() {
        0
    } else {
        1
    }
}

/// One for a slot that takes an argument, zero for an unused slot.
pub open spec fn spec_used_slot(requirement: ArgumentRequirement) -> nat {
    if requirement is Empty {
        0
    } else {
        1
    }
}

impl InstructionProperties {
    /// The properties can describe an instruction of `kind` the simulator can
    /// evaluate: its slots take what `kind` reads and writes, and the slots
    /// its conditions inspect exist.
    pub open spec fn wf_for(self, kind: InstructionKind) -> bool {
        &&& spec_supports_kind(kind, self.arguments)
        &&& self.conditional_time matches Some((_, condition)) ==> condition.wf(NUM_ARGUMENTS as int)
        &&& self.group matches Some((_, condition)) ==> condition.wf(NUM_ARGUMENTS as int)
        &&& self.calls_per_tick_limit != Some(0u8)
    }

    /// The number of slots whose requirement accepts no argument.
    pub open spec fn spec_minimum_arguments(self) -> nat {
        spec_required_slot(self.arguments@[0]) + spec_required_slot(self.arguments@[1])
            + spec_required_slot(self.arguments@[2])
    }

    /// The number of slots that take an argument at all.
    pub open spec fn spec_maximum_arguments(self) -> nat {
        spec_used_slot(self.arguments@[0]) + spec_used_slot(self.arguments@[1]) + spec_used_slot(
            self.arguments@[2],
        )
    }

    pub fn minimum_arguments(&self) -> (result: usize)
        ensures
            result == self.spec_minimum_arguments(),
    {
        let mut count: usize = 0;
        let mut i: usize = 0;
        while i < NUM_ARGUMENTS
            invariant
                0 <= i <= NUM_ARGUMENTS,
                count == (if i > 0 {
                    spec_required_slot(self.arguments@[0])
                } else {
                    0
                }) + (if i > 1 {
                    spec_required_slot(self.arguments@[1])
                } else {
                    0
                }) + (if i > 2 {
                    spec_required_slot(self.arguments@[2])
                } else {
                    0
                }),
            decreases NUM_ARGUMENTS - i,
        {
            if !self.arguments[i].allows_empty() {
                count += 1;
            }
            i += 1;
        }
        count
    }

    pub fn maximum_arguments(&self) -> (result: usize)
        ensures
            result == self.spec_maximum_arguments(),
    {
        let mut count: usize = 0;
        let mut i: usize = 0;
        while i < NUM_ARGUMENTS
            invariant
                0 <= i <= NUM_ARGUMENTS,
                count == (if i > 0 {
                    spec_used_slot(self.arguments@[0])
                } else {
                    0
                }) + (if i > 1 {
                    spec_used_slot(self.arguments@[1])
                } else {
                    0
                }) + (if i > 2 {
                    spec_used_slot(self.arguments@[2])
                } else {
                    0
                }),
            decreases NUM_ARGUMENTS - i,
        {
            if self.arguments[i] != ArgumentRequirement::Empty {
                count += 1;
            }
            i += 1;
        }
        count
    }
}

/// The first of `entries` named `name`.
pub open spec fn spec_first_named(entries: Seq<InstructionProperties>, name: Seq<char>) -> Option<
    InstructionProperties,
>
    decreases entries.len(),
{
    if entries.len() == 0 {
        None
    } else if entries[0].name@ == name {
        Some(entries[0])
    } else {
        spec_first_named(entries.drop_first(), name)
    }
}

impl InstructionKindMap<InstructionProperties> {
    /// The map with `kind`'s properties replaced by what `function` makes of
    /// them. The function must keep the kind.
    pub fn with_instruction<F>(self, kind: InstructionKind, function: F) -> (result: Self) where
        F: FnOnce(InstructionProperties) -> InstructionProperties,

        requires
            call_requires(function, (self.spec_get(kind),)),
            forall|properties: InstructionProperties|
                call_ensures(function, (self.spec_get(kind),), properties) ==> properties.kind == kind,
        ensures
            exists|properties: InstructionProperties|
                call_ensures(function, (self.spec_get(kind),), properties) && result.0@ == self.0@.update(
                    kind.spec_index(),
                    properties,
                ),
    {
        let mut result = self;
        let properties = function(*result.get(kind));
        result.set(kind, properties);
        result
    }

    /// The properties of the first kind named `name`, unless `name` is empty.
    pub open spec fn spec_instruction_with_name(self, name: Seq<char>) -> Option<InstructionProperties> {
        if name.len() == 0 {
            None
        } else {
            spec_first_named(self.0@, name)
        }
    }

    pub fn instruction_with_name(&self, name: &str) -> (result: Option<&InstructionProperties>)
        ensures
            match result {
                Some(properties) => self.spec_instruction_with_name(name@) == Some(*properties),
                None => self.spec_instruction_with_name(name@) is None,
            },
    {
        let target = chars_of(name);
        self.properties_named(target.as_slice())
    }

    /// The properties of the first kind named `name`, unless `name` is empty.
    pub fn properties_named(&self, name: &[char]) -> (result: Option<&InstructionProperties>)
        ensures
            match result {
                Some(properties) => self.spec_instruction_with_name(name@) == Some(*properties),
                None => self.spec_instruction_with_name(name@) is None,
            },
    {
        if name.len() == 0 {
            return None;
        }
        let mut i: usize = 0;
        proof {
            assert(self.0@.skip(0) =~= self.0@);
        }
        while i < NUM_INSTRUCTION_KINDS
            invariant
                0 <= i <= NUM_INSTRUCTION_KINDS,
                name@.len() > 0,
                spec_first_named(self.0@, name@) == spec_first_named(self.0@.skip(i as int), name@),
            decreases NUM_INSTRUCTION_KINDS - i,
        {
            proof {
                assert(self.0@.skip(i as int)[0] == self.0@[i as int]);
                assert(self.0@.skip(i as int).drop_first() =~= self.0@.skip(i + 1));
            }
            let candidate = chars_of(self.0[i].name);
            if chars_equal(candidate.as_slice(), name) {
                return Some(&self.0[i]);
            }
            i += 1;
        }
        proof {
            assert(self.0@.skip(i as int).len() == 0);
        }
        None
    }
}

impl Instruction {
    /// The time and energy the instruction takes, and whether it becomes the
    /// previous instruction for the next one.
    pub open spec fn spec_execution_time(
        self,
        instruction_properties: InstructionKindMap<InstructionProperties>,
        previous_instruction: Option<(Instruction, ArgumentValues)>,
        argument_values: ArgumentValues,
    ) -> (u32, u32, bool) {
        let properties = instruction_properties.spec_get(self.kind);
        match properties.conditional_time {
            Some((time, condition)) if condition.spec_matches_context(
                previous_instruction,
                self.arguments@,
                argument_values,
            ) => (
                time,
                match properties.conditional_energy {
                    Some(energy) => energy,
                    None => properties.base_energy,
                },
                !condition.spec_allows_cascade(),
            ),
            _ => (properties.base_time, properties.base_energy, true),
        }
    }

    /// Returns the time and energy to evaluate the instruction and whether or
    /// not to update the `previous_instruction`.
    pub fn execution_time(
        &self,
        instruction_properties: &InstructionKindMap<InstructionProperties>,
        previous_instruction: Option<(&Instruction, &ArgumentValues)>,
        argument_values: &ArgumentValues,
    ) -> (result: (u32, u32, bool))
        requires
            spec_instruction_table_wf(*instruction_properties),
        ensures
            result == self.spec_execution_time(
                *instruction_properties,
                spec_previous(previous_instruction),
                *argument_values,
            ),
    {
        let properties = instruction_properties.get(self.kind);

        if let Some((time, condition)) = &properties.conditional_time {
            if condition.matches_context(previous_instruction, self.arguments, argument_values) {
                let energy = match properties.conditional_energy {
                    Some(energy) => energy,
                    None => properties.base_energy,
                };

                return (*time, energy, !condition.allows_cascade());
            }
        }

        (properties.base_time, properties.base_energy, true)
    }

    /// The kind whose calls-per-tick budget the instruction draws from.
    pub open spec fn spec_group(
        self,
        instruction_properties: InstructionKindMap<InstructionProperties>,
        previous_instruction: Option<(Instruction, ArgumentValues)>,
    ) -> InstructionKind {
        match instruction_properties.spec_get(self.kind).group {
            Some((group, condition)) if condition.spec_matches_context(
                previous_instruction,
                self.arguments@,
                [None, None, None],
            ) => group,
            _ => self.kind,
        }
    }

    pub fn group(
        &self,
        instruction_properties: &InstructionKindMap<InstructionProperties>,
        previous_instruction: Option<(&Instruction, &ArgumentValues)>,
    ) -> (result: InstructionKind)
        requires
            spec_instruction_table_wf(*instruction_properties),
        ensures
            result == self.spec_group(*instruction_properties, spec_previous(previous_instruction)),
    {
        let properties = instruction_properties.get(self.kind);

        if let Some((group, condition)) = &properties.group {
            if condition.matches_context(previous_instruction, self.arguments, &[None, None, None]) {
                return *group;
            }
        }

        self.kind
    }
}


/// The longest a read of the source waits: the register's read time plus any
/// block on it.
pub open spec fn spec_source_read_time(registers: Seq<Option<RegisterView>>, source: NumberSource) -> int {
    match source {
        NumberSource::Register(register) => match spec_lookup(registers, register) {
            Some(view) => view.read_time + view.block_time,
            None => 0,
        },
        NumberSource::Constant(_) => 0,
    }
}

/// The larger of two numbers.
pub open spec fn spec_max(a: int, b: int) -> int {
    if a >= b {
        a
    } else {
        b
    }
}

/// Reads one argument slot: the value it provides, if any, and how long the
/// reads it makes take.
pub open spec fn spec_read_argument(
    registers: Seq<Option<RegisterView>>,
    argument: Argument,
    requirement: ArgumentRequirement,
) -> Result<(Option<Integer>, int), InstructionEvaluationInterrupt> {
    if requirement is RegisterWriteOnly {
        Ok((None, 0))
    } else {
        match argument {
            Argument::Number(source) => match source.spec_value(registers) {
                Err(interrupt) => Err(interrupt),
                Ok(value) => Ok((Some(value), spec_source_read_time(registers, source))),
            },
            Argument::Comparison(comparison) => match comparison.spec_evaluate(registers) {
                Err(interrupt) => Err(interrupt),
                Ok(value) => Ok(
                    (
                        Some(value),
                        spec_max(
                            spec_source_read_time(registers, comparison.values[0]),
                            spec_source_read_time(registers, comparison.values[1]),
                        ),
                    ),
                ),
            },
            _ => Ok((None, 0)),
        }
    }
}

/// What an instruction does once its arguments are read: the write it
/// buffers, the register whose write timing it pays, where it jumps, and the
/// extra time it sleeps.
pub struct EvaluationEffect {
    pub write: Option<(u32, Integer)>,
    pub timed_register: Option<u32>,
    pub jump: Option<u32>,
    pub extra_time: int,
}

/// An effect that does nothing.
pub open spec fn spec_no_effect() -> EvaluationEffect {
    EvaluationEffect { write: None, timed_register: None, jump: None, extra_time: 0 }
}

/// Writing `value` to the register in slot `destination`.
pub open spec fn spec_write_effect(
    instruction: Instruction,
    registers: Seq<Option<RegisterView>>,
    destination: int,
    value: Integer,
) -> Result<EvaluationEffect, InstructionEvaluationInterrupt> {
    let register = instruction.arguments@[destination].spec_as_register().unwrap();
    match spec_buffered_write_check(registers, register, value) {
        Err(error) => Err(InstructionEvaluationInterrupt::RegisterError { register, error }),
        Ok(_) => Ok(
            EvaluationEffect {
                write: Some((register, value)),
                timed_register: Some(register),
                ..spec_no_effect()
            },
        ),
    }
}

/// The result of an arithmetic instruction when it fits in an `Integer`.
pub open spec fn spec_fast_operation(kind: InstructionKind, lhs: Integer, rhs: Integer) -> Option<
    Integer,
> {
    let exact: int = match kind {
        InstructionKind::Add => lhs + rhs,
        InstructionKind::Subtract => lhs - rhs,
        InstructionKind::Multiply => lhs * rhs,
        InstructionKind::Divide => (lhs as int) / (rhs as int),
        _ => (lhs as int) % (rhs as int),
    };
    if rhs == 0 && (kind is Divide || kind is Modulus) {
        None
    } else if kind is Modulus && lhs == i32::MIN && rhs == -1 {
        None
    } else if i32::MIN <= exact <= i32::MAX {
        Some(exact as Integer)
    } else {
        None
    }
}

/// The result of an arithmetic instruction computed with a wider integer, used
/// to report a result that does not fit.
pub open spec fn spec_wide_operation(kind: InstructionKind, lhs: Integer, rhs: Integer) -> Result<
    BiggerInteger,
    InstructionEvaluationInterrupt,
> {
    match kind {
        InstructionKind::Add => Ok((lhs + rhs) as BiggerInteger),
        InstructionKind::Subtract => Ok((lhs - rhs) as BiggerInteger),
        InstructionKind::Multiply => Ok((lhs * rhs) as BiggerInteger),
        _ => if rhs == 0 {
            Err(InstructionEvaluationInterrupt::ArithmaticError { error: ArithmaticError::DivideByZero })
        } else {
            Ok(((lhs as int) / (rhs as int)) as BiggerInteger)
        },
    }
}

/// The effect of an arithmetic instruction on its first two values.
pub open spec fn spec_arithmetic_effect(
    instruction: Instruction,
    registers: Seq<Option<RegisterView>>,
    lhs: Integer,
    rhs: Integer,
) -> Result<EvaluationEffect, InstructionEvaluationInterrupt> {
    match spec_fast_operation(instruction.kind, lhs, rhs) {
        Some(result) => spec_write_effect(instruction, registers, 2, result),
        None => match spec_wide_operation(instruction.kind, lhs, rhs) {
            Err(interrupt) => Err(interrupt),
            Ok(result) => {
                let register = instruction.arguments@[2].spec_as_register().unwrap();
                match spec_lookup(registers, register).unwrap().values.selected() {
                    Err(error) => Err(InstructionEvaluationInterrupt::RegisterError { register, error }),
                    Ok(current) => Err(
                        InstructionEvaluationInterrupt::RegisterError {
                            register,
                            error: RegisterAccessError::InvalidAssignment {
                                error: if result > 0 {
                                    AssignIntegerError::ValueMuchTooBig {
                                        got: result,
                                        maximum: current.spec_maximum() as Integer,
                                    }
                                } else {
                                    AssignIntegerError::ValueMuchTooSmall {
                                        got: result,
                                        minimum: -current.spec_maximum() as Integer,
                                    }
                                },
                            },
                        },
                    ),
                }
            },
        },
    }
}

/// `10` to the power `exponent`.
pub open spec fn spec_power_of_ten(exponent: nat) -> nat
    decreases exponent,
{
    if exponent == 0 {
        1
    } else {
        10 * spec_power_of_ten((exponent - 1) as nat)
    }
}

/// The clock reading: the runtime with `digits` decimal digits dropped,
/// wrapped to the register's range (zero once the divisor leaves `u64`).
pub open spec fn spec_clock(runtime: u64, digits: nat, bound: int) -> Integer {
    let divisor = spec_power_of_ten(digits);
    if divisor <= u64::MAX {
        ((runtime as int / divisor as int) % bound) as Integer
    } else {
        0
    }
}

impl Instruction {
    /// Reads every argument slot in order, stopping at the first interrupt:
    /// the values, and how long the reads take (the longest single read).
    pub open spec fn spec_read_arguments(
        self,
        registers: Seq<Option<RegisterView>>,
        properties: InstructionProperties,
    ) -> Result<(ArgumentValues, int), InstructionEvaluationInterrupt> {
        match spec_read_argument(registers, self.arguments@[0], properties.arguments@[0]) {
            Err(interrupt) => Err(interrupt),
            Ok((value0, time0)) => match spec_read_argument(
                registers,
                self.arguments@[1],
                properties.arguments@[1],
            ) {
                Err(interrupt) => Err(interrupt),
                Ok((value1, time1)) => match spec_read_argument(
                    registers,
                    self.arguments@[2],
                    properties.arguments@[2],
                ) {
                    Err(interrupt) => Err(interrupt),
                    Ok((value2, time2)) => Ok(
                        ([value0, value1, value2], spec_max(spec_max(time0, time1), time2)),
                    ),
                },
            },
        }
    }

    /// What the instruction does with its argument values.
    pub open spec fn spec_effect(
        self,
        registers: Seq<Option<RegisterView>>,
        values: ArgumentValues,
        runtime: u64,
    ) -> Result<EvaluationEffect, InstructionEvaluationInterrupt> {
        let v = values@;
        match self.kind {
            InstructionKind::SetRegister => spec_write_effect(self, registers, 0, v[1].unwrap()),
            InstructionKind::Add | InstructionKind::Subtract | InstructionKind::Multiply
            | InstructionKind::Divide | InstructionKind::Modulus => spec_arithmetic_effect(
                self,
                registers,
                v[0].unwrap(),
                v[1].unwrap(),
            ),
            InstructionKind::Negate => spec_write_effect(self, registers, 0, (-v[0].unwrap()) as Integer),
            InstructionKind::IsOdd => spec_write_effect(self, registers, 0, ((v[0].unwrap() as int) % 2) as Integer),
            InstructionKind::Compare => spec_write_effect(self, registers, 1, v[0].unwrap()),
            InstructionKind::CompareSetIfTrue => if v[0].unwrap() == 1 {
                spec_write_effect(self, registers, 1, 1)
            } else {
                Ok(spec_no_effect())
            },
            InstructionKind::CompareSetIfFalse => if v[0].unwrap() == 0 {
                spec_write_effect(self, registers, 1, 0)
            } else {
                Ok(spec_no_effect())
            },
            InstructionKind::Jump | InstructionKind::JumpCondLikely
            | InstructionKind::JumpCondUnlikely => if v[0] != Some(0i32) {
                Ok(
                    EvaluationEffect {
                        jump: Some(self.arguments@[1]->Instruction_0),
                        ..spec_no_effect()
                    },
                )
            } else {
                Ok(spec_no_effect())
            },
            InstructionKind::Sleep => Ok(
                EvaluationEffect {
                    extra_time: spec_max(v[0].unwrap() as int, 0),
                    ..spec_no_effect()
                },
            ),
            InstructionKind::End => Err(InstructionEvaluationInterrupt::ProgramComplete),
            InstructionKind::TryRead => Ok(spec_no_effect()),
            InstructionKind::TryWrite => {
                let register = self.arguments@[0].spec_as_register().unwrap();
                match spec_lookup(registers, register) {
                    None => Err(
                        InstructionEvaluationInterrupt::RegisterError {
                            register,
                            error: RegisterAccessError::NoSuchRegister { got: register },
                        },
                    ),
                    Some(_) => Ok(EvaluationEffect { timed_register: Some(register), ..spec_no_effect() }),
                }
            },
            InstructionKind::Clock => {
                let register = self.arguments@[0].spec_as_register().unwrap();
                match spec_lookup(registers, register) {
                    None => Err(
                        InstructionEvaluationInterrupt::RegisterError {
                            register,
                            error: RegisterAccessError::NoSuchRegister { got: register },
                        },
                    ),
                    Some(view) => match view.values.selected() {
                        Err(error) => Err(InstructionEvaluationInterrupt::RegisterError { register, error }),
                        Ok(current) => {
                            let digits = match v[1] {
                                Some(digits) => spec_max(digits as int, 0),
                                None => 0,
                            };
                            spec_write_effect(
                                self,
                                registers,
                                0,
                                spec_clock(runtime, digits as nat, current.spec_maximum() + 1),
                            )
                        },
                    },
                }
            },
        }
    }

    /// The total time the instruction takes: its reads and own time, or the
    /// block on the register it writes if that is longer, plus the write.
    pub open spec fn spec_total_time(
        registers: Seq<Option<RegisterView>>,
        read_time: int,
        instruction_time: int,
        effect: EvaluationEffect,
    ) -> int {
        let (write_time, write_block_time) = spec_write_timing(registers, effect.timed_register);
        spec_max(read_time + instruction_time + effect.extra_time, write_block_time) + write_time
    }

    /// Evaluates the instruction: the total time and energy it takes, the
    /// value of each argument, and whether it becomes the previous
    /// instruction; or the interrupt it raises.
    pub open spec fn spec_evaluate(
        self,
        registers: Seq<Option<RegisterView>>,
        instruction_properties: InstructionKindMap<InstructionProperties>,
        previous_instruction: Option<(Instruction, ArgumentValues)>,
        runtime: u64,
    ) -> Result<(u32, u32, ArgumentValues, bool, EvaluationEffect), InstructionEvaluationInterrupt> {
        match self.spec_read_arguments(registers, instruction_properties.spec_get(self.kind)) {
            Err(interrupt) => Err(interrupt),
            Ok((values, read_time)) => {
                let (time, energy, update) = self.spec_execution_time(
                    instruction_properties,
                    previous_instruction,
                    values,
                );
                match self.spec_effect(registers, values, runtime) {
                    Err(interrupt) => Err(interrupt),
                    Ok(effect) => Ok(
                        (
                            Self::spec_total_time(registers, read_time, time as int, effect) as u32,
                            energy,
                            values,
                            update,
                            effect,
                        ),
                    ),
                }
            },
        }
    }

    /// The times the instruction adds up fit in a `u32`: the longest read
    /// once the arguments are read, and the total once its effect is known.
    pub open spec fn spec_time_fits(
        self,
        registers: Seq<Option<RegisterView>>,
        instruction_properties: InstructionKindMap<InstructionProperties>,
        previous_instruction: Option<(Instruction, ArgumentValues)>,
        runtime: u64,
    ) -> bool {
        match self.spec_read_arguments(registers, instruction_properties.spec_get(self.kind)) {
            Err(_) => true,
            Ok((values, read_time)) => {
                &&& read_time <= u32::MAX
                &&& self.spec_effect(registers, values, runtime) matches Ok(effect) ==> {
                    let time = self.spec_execution_time(instruction_properties, previous_instruction, values).0;
                    Self::spec_total_time(registers, read_time, time as int, effect) <= u32::MAX
                }
            },
        }
    }

    /// Each argument fits the requirement of its slot.
    pub open spec fn spec_arguments_match(self, properties: InstructionProperties) -> bool {
        forall|i: int| 0 <= i < NUM_ARGUMENTS ==> #[trigger] self.arguments@[i].spec_matches_requirement(properties.arguments@[i])
    }

    /// Every register the instruction names is present.
    pub open spec fn spec_registers_present(self, registers: Seq<Option<RegisterView>>) -> bool {
        forall|i: int, j: int|
            0 <= i < NUM_ARGUMENTS && 0 <= j < self.arguments@[i].spec_number_sources().len() ==> ((
            #[trigger] self.arguments@[i].spec_number_sources()[j]).spec_as_register() matches Some(register)
                ==> spec_lookup(registers, register) is Some)
    }

    /// An arithmetic result too large for an `Integer` is reported against the
    /// range of its destination register, which must then be present.
    pub open spec fn spec_result_target_present(self, registers: Seq<Option<RegisterView>>, values: ArgumentValues) -> bool {
        let lhs = values@[0].unwrap();
        let rhs = values@[1].unwrap();
        let overflows = (self.kind is Add || self.kind is Subtract || self.kind is Multiply || self.kind is Divide
            || self.kind is Modulus) && spec_fast_operation(self.kind, lhs, rhs) is None
            && spec_wide_operation(self.kind, lhs, rhs) is Ok;
        overflows ==> (self.arguments@[2].spec_as_register() matches Some(register) ==> spec_lookup(
            registers,
            register,
        ) is Some)
    }

    /// Once the arguments are read, an arithmetic result too large for an
    /// `Integer` has a destination register to be reported against.
    pub open spec fn spec_overflow_target_present(
        self,
        registers: Seq<Option<RegisterView>>,
        instruction_properties: InstructionKindMap<InstructionProperties>,
    ) -> bool {
        match self.spec_read_arguments(registers, instruction_properties.spec_get(self.kind)) {
            Err(_) => true,
            Ok((values, _)) => self.spec_result_target_present(registers, values),
        }
    }
}


/// Every time the table gives an instruction, plain or conditional, is at
/// most `bound` ticks.
pub open spec fn spec_table_times_within(table: InstructionKindMap<InstructionProperties>, bound: int) -> bool {
    forall|kind: InstructionKind|
        #![trigger table.spec_get(kind)]
        {
            &&& table.spec_get(kind).base_time <= bound
            &&& table.spec_get(kind).conditional_time matches Some((time, _)) ==> time <= bound
        }
}

/// Reading a source waits at most twice the longest time setting.
proof fn lemma_source_read_time_within(registers: Seq<Option<RegisterView>>, source: NumberSource, bound: int)
    requires
        spec_registers_times_within(registers, bound),
    ensures
        0 <= spec_source_read_time(registers, source) <= 2 * bound || spec_source_read_time(registers, source) == 0,
{
    if let NumberSource::Register(register) = source {
        if (register as int) < registers.len() {
            assert(registers[register as int] matches Some(view) ==> view.read_time <= bound && view.block_time <= bound);
        }
    }
}

/// Reading an argument waits at most twice the longest time setting.
proof fn lemma_read_argument_within(
    registers: Seq<Option<RegisterView>>,
    argument: Argument,
    requirement: ArgumentRequirement,
    bound: int,
)
    requires
        spec_registers_times_within(registers, bound),
        bound >= 0,
    ensures
        spec_read_argument(registers, argument, requirement) matches Ok((_, time)) ==> 0 <= time <= 2 * bound,
{
    match argument {
        Argument::Number(source) => lemma_source_read_time_within(registers, source, bound),
        Argument::Comparison(comparison) => {
            lemma_source_read_time_within(registers, comparison.values[0], bound);
            lemma_source_read_time_within(registers, comparison.values[1], bound);
        },
        _ => {},
    }
}

impl Instruction {
    /// An instruction evaluated where every time setting is at most `2^28`
    /// ticks adds up less than a `u32` holds, however long it sleeps.
    pub proof fn lemma_short_times_fit(
        self,
        registers: Seq<Option<RegisterView>>,
        instruction_properties: InstructionKindMap<InstructionProperties>,
        previous_instruction: Option<(Instruction, ArgumentValues)>,
        runtime: u64,
    )
        requires
            spec_registers_times_within(registers, 0x1000_0000),
            spec_table_times_within(instruction_properties, 0x1000_0000),
        ensures
            self.spec_time_fits(registers, instruction_properties, previous_instruction, runtime),
    {
        let bound: int = 0x1000_0000;
        let properties = instruction_properties.spec_get(self.kind);
        lemma_read_argument_within(registers, self.arguments@[0], properties.arguments@[0], bound);
        lemma_read_argument_within(registers, self.arguments@[1], properties.arguments@[1], bound);
        lemma_read_argument_within(registers, self.arguments@[2], properties.arguments@[2], bound);
        if let Ok((values, read_time)) = self.spec_read_arguments(registers, properties) {
            assert(read_time <= 2 * bound);
            if let Ok(effect) = self.spec_effect(registers, values, runtime) {
                let time = self.spec_execution_time(instruction_properties, previous_instruction, values).0;
                assert(time <= bound);
                assert(0 <= effect.extra_time <= i32::MAX);
                if let Some(register) = effect.timed_register {
                    assert(spec_lookup(registers, register) is Some);
                    assert(registers[register as int] matches Some(view) ==> view.write_time <= bound
                        && view.block_time <= bound);
                }
                let (write_time, write_block_time) = spec_write_timing(registers, effect.timed_register);
                assert(0 <= write_time <= bound && 0 <= write_block_time <= bound);
            }
        }
    }
}

/// `10` to the power `exponent`, if it fits in a `u64`.
pub fn checked_power_of_ten(exponent: u32) -> (result: Option<u64>)
    ensures
        result == if spec_power_of_ten(exponent as nat) <= u64::MAX {
            Some(spec_power_of_ten(exponent as nat) as u64)
        } else {
            None::<u64>
        },
{
    let mut power: u64 = 1;
    let mut i: u32 = 0;
    while i < exponent
        invariant
            0 <= i <= exponent,
            power == spec_power_of_ten(i as nat),
        decreases exponent - i,
    {
        if power > u64::MAX / 10 {
            proof {
                lemma_power_of_ten_grows(i as nat, exponent as nat);
            }
            return None;
        }
        power = power * 10;
        i += 1;
    }
    Some(power)
}

/// `spec_power_of_ten` is ten raised to the exponent.
pub proof fn lemma_power_of_ten_is_power(exponent: nat)
    ensures
        spec_power_of_ten(exponent) == vstd::arithmetic::power::pow(10, exponent),
    decreases exponent,
{
    reveal(vstd::arithmetic::power::pow);
    if exponent > 0 {
        lemma_power_of_ten_is_power((exponent - 1) as nat);
    }
}

/// The clock reads the runtime shifted right by `digits` decimal digits and
/// wrapped to `bound`: the whole number of times ten to the `digits` goes into
/// the runtime, modulo `bound`. So it reads zero while the runtime is below ten
/// to the `digits`, and with no digits dropped it is the runtime itself,
/// wrapped.
pub proof fn lemma_clock_reading(runtime: u64, digits: nat, bound: int)
    requires
        0 < bound <= i32::MAX,
    ensures
        vstd::arithmetic::power::pow(10, digits) <= u64::MAX ==> spec_clock(runtime, digits, bound) == (runtime as int
            / vstd::arithmetic::power::pow(10, digits)) % bound,
        runtime < vstd::arithmetic::power::pow(10, digits) ==> spec_clock(runtime, digits, bound) == 0,
        spec_clock(runtime, 0, bound) == runtime as int % bound,
        0 <= spec_clock(runtime, digits, bound) < bound,
{
    lemma_power_of_ten_is_power(digits);
    let power = vstd::arithmetic::power::pow(10, digits);
    lemma_power_of_ten_grows(0, digits);
    assert(spec_power_of_ten(0) == 1);
    assert(runtime as int / 1 == runtime as int);
    if power <= u64::MAX {
        vstd::arithmetic::div_mod::lemma_div_pos_is_pos(runtime as int, power);
        vstd::arithmetic::div_mod::lemma_mod_bound((runtime as int / power) as int, bound);
        if runtime < power {
            vstd::arithmetic::div_mod::lemma_basic_div(runtime as int, power);
            assert(runtime as int / power == 0);
            assert(spec_power_of_ten(digits) as int == power);
            assert(0int % bound == 0);
        }
    }
    vstd::arithmetic::div_mod::lemma_mod_bound(runtime as int, bound);
}

/// Arithmetic computes what its name says of its first value and its second,
/// in that order, whenever the result fits an `Integer`: a sum, a difference,
/// a product, and a Euclidean quotient and remainder. Adding back what was
/// subtracted gives the first value again, and so does subtracting what was
/// added. A result too large is reported as the same sum, difference or
/// product, computed wider.
pub proof fn lemma_arithmetic_results(lhs: Integer, rhs: Integer)
    ensures
        i32::MIN <= lhs + rhs <= i32::MAX ==> spec_fast_operation(InstructionKind::Add, lhs, rhs) == Some(
            (lhs + rhs) as Integer,
        ),
        i32::MIN <= lhs - rhs <= i32::MAX ==> spec_fast_operation(InstructionKind::Subtract, lhs, rhs) == Some(
            (lhs - rhs) as Integer,
        ),
        i32::MIN <= lhs * rhs <= i32::MAX ==> spec_fast_operation(InstructionKind::Multiply, lhs, rhs) == Some(
            (lhs * rhs) as Integer,
        ),
        spec_fast_operation(InstructionKind::Subtract, lhs, rhs) matches Some(difference) ==> spec_fast_operation(
            InstructionKind::Add,
            difference,
            rhs,
        ) == Some(lhs),
        spec_fast_operation(InstructionKind::Add, lhs, rhs) matches Some(sum) ==> spec_fast_operation(
            InstructionKind::Subtract,
            sum,
            rhs,
        ) == Some(lhs),
        rhs == 0 ==> spec_fast_operation(InstructionKind::Divide, lhs, rhs) is None && spec_fast_operation(
            InstructionKind::Modulus,
            lhs,
            rhs,
        ) is None,
        spec_fast_operation(InstructionKind::Divide, lhs, rhs) matches Some(quotient) ==> {
            let remainder = lhs - quotient * rhs;
            &&& 0 <= remainder
            &&& remainder < rhs || remainder < -rhs
        },
        spec_fast_operation(InstructionKind::Modulus, lhs, rhs) matches Some(remainder) ==> {
            &&& 0 <= remainder
            &&& remainder < rhs || remainder < -rhs
        },
        spec_fast_operation(InstructionKind::Divide, lhs, rhs) is Some && spec_fast_operation(
            InstructionKind::Modulus,
            lhs,
            rhs,
        ) is Some ==> spec_fast_operation(InstructionKind::Divide, lhs, rhs).unwrap() * rhs + spec_fast_operation(
            InstructionKind::Modulus,
            lhs,
            rhs,
        ).unwrap() == lhs,
        spec_wide_operation(InstructionKind::Add, lhs, rhs) matches Ok(wide) ==> wide == lhs + rhs,
        spec_wide_operation(InstructionKind::Subtract, lhs, rhs) matches Ok(wide) ==> wide == lhs - rhs,
        spec_wide_operation(InstructionKind::Multiply, lhs, rhs) matches Ok(wide) ==> wide == lhs * rhs,
{
    assert(-0x4000_0000_0000_0000 <= lhs * rhs <= 0x4000_0000_0000_0000) by (nonlinear_arith)
        requires
            i32::MIN <= lhs <= i32::MAX,
            i32::MIN <= rhs <= i32::MAX,
    ;
    if rhs != 0 {
        let quotient = (lhs as int) / (rhs as int);
        let remainder = (lhs as int) % (rhs as int);
        vstd::arithmetic::div_mod::lemma_fundamental_div_mod(lhs as int, rhs as int);
        assert(lhs - quotient * rhs == remainder) by (nonlinear_arith)
            requires
                lhs == rhs * quotient + remainder,
        ;
        assert(lhs == quotient * rhs + remainder) by (nonlinear_arith)
            requires
                lhs == rhs * quotient + remainder,
        ;
        if let Some(q) = spec_fast_operation(InstructionKind::Divide, lhs, rhs) {
            assert(q as int == quotient);
            if let Some(r) = spec_fast_operation(InstructionKind::Modulus, lhs, rhs) {
                assert(r as int == remainder);
                assert(q * rhs + r == lhs) by (nonlinear_arith)
                    requires
                        q == quotient,
                        r == remainder,
                        lhs == quotient * rhs + remainder,
                ;
            }
        }
    }
}

impl Instruction {
    /// An arithmetic instruction that succeeds buffers, to the register in its
    /// third slot, its first value combined with its second in that order: their
    /// sum, difference, product, Euclidean quotient or Euclidean remainder.
    pub proof fn lemma_arithmetic_writes(self, registers: Seq<Option<RegisterView>>, values: ArgumentValues, runtime: u64)
        requires
            self.kind is Add || self.kind is Subtract || self.kind is Multiply || self.kind is Divide
                || self.kind is Modulus,
            self.arguments@[2].spec_as_register() is Some,
        ensures
            self.spec_effect(registers, values, runtime) matches Ok(effect) ==> {
                let lhs = values@[0].unwrap() as int;
                let rhs = values@[1].unwrap() as int;
                &&& effect.write matches Some((register, value))
                &&& self.arguments@[2].spec_as_register() == Some(register)
                &&& match self.kind {
                    InstructionKind::Add => value == lhs + rhs,
                    InstructionKind::Subtract => value + rhs == lhs,
                    InstructionKind::Multiply => value == lhs * rhs,
                    InstructionKind::Divide => value == lhs / rhs,
                    _ => value == lhs % rhs,
                }
            },
    {
        let lhs = values@[0].unwrap();
        let rhs = values@[1].unwrap();
        assert(self.spec_effect(registers, values, runtime) == spec_arithmetic_effect(self, registers, lhs, rhs));
        if let Some(result) = spec_fast_operation(self.kind, lhs, rhs) {
            assert(spec_arithmetic_effect(self, registers, lhs, rhs) == spec_write_effect(self, registers, 2, result));
        }
    }
}

impl Instruction {
    /// A clock instruction that succeeds buffers, to the register in its first
    /// slot, the runtime shifted right by as many decimal digits as its second
    /// value says (none if it is absent or negative), wrapped to one past that
    /// register's maximum; zero once ten to that many digits leaves a `u64`.
    pub proof fn lemma_clock_writes(self, registers: Seq<Option<RegisterView>>, values: ArgumentValues, runtime: u64)
        requires
            self.kind is Clock,
            self.arguments@[0].spec_as_register() matches Some(register) && (spec_lookup(registers, register) matches Some(
                view,
            ) ==> (view.values.selected() matches Ok(current) ==> current.spec_digits() <= MAXIMUM_DIGITS)),
        ensures
            self.spec_effect(registers, values, runtime) matches Ok(effect) ==> {
                let register = self.arguments@[0].spec_as_register().unwrap();
                let current = spec_lookup(registers, register).unwrap().values.selected().unwrap();
                let digits: nat = match values@[1] {
                    Some(digits) => if digits >= 0 { digits as nat } else { 0 },
                    None => 0,
                };
                let power = vstd::arithmetic::power::pow(10, digits);
                &&& effect.write matches Some((written, value))
                &&& written == register
                &&& value == if power <= u64::MAX {
                    (runtime as int / power) % (current.spec_maximum() + 1)
                } else {
                    0
                }
            },
    {
        let register = self.arguments@[0].spec_as_register().unwrap();
        if let Some(view) = spec_lookup(registers, register) {
            if let Ok(current) = view.values.selected() {
                lemma_range_of_digits_bounds(current.spec_digits() as nat);
                let digits: nat = match values@[1] {
                    Some(digits) => if digits >= 0 { digits as nat } else { 0 },
                    None => 0,
                };
                assert(digits == spec_max(match values@[1] { Some(d) => d as int, None => 0 }, 0));
                lemma_clock_reading(runtime, digits, current.spec_maximum() + 1);
            }
        }
    }
}

/// Powers of ten only grow with the exponent.
pub proof fn lemma_power_of_ten_grows(small: nat, large: nat)
    requires
        small <= large,
    ensures
        spec_power_of_ten(small) <= spec_power_of_ten(large),
        small < large ==> 10 * spec_power_of_ten(small) <= spec_power_of_ten(large),
    decreases large - small,
{
    if small < large {
        lemma_power_of_ten_grows(small, (large - 1) as nat);
    }
}

impl Instruction {
    /// # Panics
    ///
    /// Will panic if the argument does not contain a register
    fn register_of_argument(&self, argument: usize) -> (result: u32)
        requires
            argument < NUM_ARGUMENTS,
            self.arguments@[argument as int].spec_as_register() is Some,
        ensures
            self.arguments@[argument as int].spec_as_register() == Some(result),
    {
        self.arguments[argument].as_register().unwrap()
    }

    /// Reads argument slot `index`: its value, if it provides one, and how long
    /// the reads take.
    fn read_argument(
        &self,
        index: usize,
        registers: &RegisterSet,
        requirement: ArgumentRequirement,
    ) -> (result: Result<(Option<Integer>, u64), InstructionEvaluationInterrupt>)
        requires
            registers.wf(),
            index < NUM_ARGUMENTS,
        ensures
            match result {
                Ok((value, time)) => {
                    &&& spec_read_argument(
                        registers.spec_registers(),
                        self.arguments@[index as int],
                        requirement,
                    ) == Ok::<_, InstructionEvaluationInterrupt>((value, time as int))
                    &&& (self.arguments@[index as int] matches Argument::Number(
                        NumberSource::Register(_),
                    ) && !(requirement is RegisterWriteOnly)) ==> (value matches Some(v)
                        && -spec_largest_magnitude() <= v <= spec_largest_magnitude())
                },
                Err(interrupt) => spec_read_argument(
                    registers.spec_registers(),
                    self.arguments@[index as int],
                    requirement,
                ) == Err::<(Option<Integer>, int), _>(interrupt),
            },
    {
        if requirement == ArgumentRequirement::RegisterWriteOnly {
            return Ok((None, 0));
        }
        match self.arguments[index] {
            Argument::Number(source) => {
                let (value, register) = match source.value(registers) {
                    Ok(read) => read,
                    Err(interrupt) => return Err(interrupt),
                };
                Ok((Some(value), Self::read_time_of(registers, register)))
            },
            Argument::Comparison(comparison) => {
                let (value, read) = match comparison.evaluate(registers) {
                    Ok(evaluated) => evaluated,
                    Err(interrupt) => return Err(interrupt),
                };
                let lhs_time = Self::read_time_of(registers, read[0]);
                let rhs_time = Self::read_time_of(registers, read[1]);
                Ok((Some(value), if lhs_time >= rhs_time { lhs_time } else { rhs_time }))
            },
            _ => Ok((None, 0)),
        }
    }

    /// How long reading the register takes, if one was read.
    fn read_time_of(registers: &RegisterSet, register: Option<u32>) -> (result: u64)
        requires
            registers.wf(),
        ensures
            result == match register {
                Some(register) => match spec_lookup(registers.spec_registers(), register) {
                    Some(view) => view.read_time + view.block_time,
                    None => 0,
                },
                None => 0,
            },
    {
        match register {
            Some(register) => {
                match registers.get(register) {
                    Some(view) => view.read_time as u64 + view.block_time as u64,
                    None => 0,
                }
            },
            None => 0,
        }
    }

    /// Buffers a write of `value` to the register in slot `destination`, and
    /// returns that register.
    ///
    /// # Panics
    ///
    /// Will panic if the argument does not contain a register
    fn write_to_argument<'a>(
        &self,
        registers: &'a mut RegisterSet,
        destination: usize,
        value: Integer,
    ) -> (result: Result<&'a Register, InstructionEvaluationInterrupt>)
        requires
            old(registers).wf(),
            destination < NUM_ARGUMENTS,
            self.arguments@[destination as int].spec_as_register() is Some,
        ensures
            final(registers).spec_registers() == old(registers).spec_registers(),
            final(registers).wf(),
            match spec_write_effect(*self, old(registers).spec_registers(), destination as int, value) {
                Ok(effect) => {
                    &&& result matches Ok(register) && Some(register@) == spec_lookup(
                        old(registers).spec_registers(),
                        effect.timed_register.unwrap(),
                    )
                    &&& final(registers).spec_buffered_writes() == old(
                        registers,
                    ).spec_buffered_writes().push(effect.write.unwrap())
                },
                Err(interrupt) => {
                    &&& result == Err::<&Register, _>(interrupt)
                    &&& final(registers).spec_buffered_writes() == old(
                        registers,
                    ).spec_buffered_writes()
                },
            },
    {
        let register = self.register_of_argument(destination);

        match registers.buffered_write(register, value) {
            Ok(()) => {},
            Err(error) => return Err(InstructionEvaluationInterrupt::RegisterError { register, error }),
        }

        Ok(registers.get(register).unwrap())
    }
}


/// A quotient of `Integer`s is no larger in magnitude than its dividend plus
/// its divisor.
pub proof fn lemma_quotient_bounded(dividend: int, divisor: int)
    requires
        divisor != 0,
        i32::MIN <= dividend <= i32::MAX,
        i32::MIN <= divisor <= i32::MAX,
    ensures
        -0x1_0000_0000 <= dividend / divisor <= 0x1_0000_0000,
{
    let quotient = dividend / divisor;
    let remainder = dividend % divisor;
    vstd::arithmetic::div_mod::lemma_fundamental_div_mod(dividend, divisor);
    assert(0 <= remainder < if divisor > 0 { divisor } else { -divisor });
    assert(-0x1_0000_0000 <= quotient <= 0x1_0000_0000) by (nonlinear_arith)
        requires
            dividend == divisor * quotient + remainder,
            0 <= remainder < if divisor > 0 {
                divisor
            } else {
                -divisor
            },
            divisor != 0,
            i32::MIN <= dividend <= i32::MAX,
            i32::MIN <= divisor <= i32::MAX,
    ;
}

impl Instruction {
    /// Applies the instruction's arithmetic to `argument_values` in the first
    /// two source slots, and buffers the result to the register in the third.
    ///
    /// # Panics
    ///
    /// Will panic if the destination argument does not contain a register, or if
    /// the lhs or rhs arguments are not available.
    fn apply_operation<'a>(
        &self,
        argument_values: ArgumentValues,
        registers: &'a mut RegisterSet,
        argument_sources: [usize; 3],
    ) -> (result: Result<&'a Register, InstructionEvaluationInterrupt>)
        requires
            old(registers).wf(),
            argument_sources@ == seq![0usize, 1usize, 2usize],
            argument_values@[0] is Some,
            argument_values@[1] is Some,
            self.arguments@[2].spec_as_register() is Some,
            self.spec_result_target_present(old(registers).spec_registers(), argument_values),
            self.kind is Add || self.kind is Subtract || self.kind is Multiply || self.kind is Divide
                || self.kind is Modulus,
        ensures
            final(registers).spec_registers() == old(registers).spec_registers(),
            final(registers).wf(),
            match spec_arithmetic_effect(
                *self,
                old(registers).spec_registers(),
                argument_values@[0].unwrap(),
                argument_values@[1].unwrap(),
            ) {
                Ok(effect) => {
                    &&& result matches Ok(register) && Some(register@) == spec_lookup(
                        old(registers).spec_registers(),
                        effect.timed_register.unwrap(),
                    )
                    &&& final(registers).spec_buffered_writes() == old(
                        registers,
                    ).spec_buffered_writes().push(effect.write.unwrap())
                },
                Err(interrupt) => {
                    &&& result == Err::<&Register, _>(interrupt)
                    &&& final(registers).spec_buffered_writes() == old(
                        registers,
                    ).spec_buffered_writes()
                },
            },
    {
        let lhs = argument_values[argument_sources[0]].unwrap();
        let rhs = argument_values[argument_sources[1]].unwrap();

        let fast = match self.kind {
            InstructionKind::Add => lhs.checked_add(rhs),
            InstructionKind::Subtract => lhs.checked_sub(rhs),
            InstructionKind::Multiply => lhs.checked_mul(rhs),
            InstructionKind::Divide => lhs.checked_div_euclid(rhs),
            _ => lhs.checked_rem_euclid(rhs),
        };

        if let Some(result) = fast {
            self.write_to_argument(registers, argument_sources[2], result)
        } else {
            let wide_lhs = lhs as BiggerInteger;
            let wide_rhs = rhs as BiggerInteger;
            proof {
                if rhs != 0 {
                    lemma_quotient_bounded(lhs as int, rhs as int);
                }
            }
            let result: BiggerInteger = match self.kind {
                InstructionKind::Add => wide_lhs + wide_rhs,
                InstructionKind::Subtract => wide_lhs - wide_rhs,
                InstructionKind::Multiply => {
                    assert(-0x4000_0000_0000_0000 <= wide_lhs * wide_rhs <= 0x4000_0000_0000_0000)
                        by (nonlinear_arith)
                        requires
                            i32::MIN <= wide_lhs <= i32::MAX,
                            i32::MIN <= wide_rhs <= i32::MAX,
                    ;
                    wide_lhs * wide_rhs
                },
                _ => match wide_lhs.checked_div_euclid(wide_rhs) {
                    Some(quotient) => quotient,
                    None => {
                        return Err(
                            InstructionEvaluationInterrupt::ArithmaticError {
                                error: ArithmaticError::DivideByZero,
                            },
                        )
                    },
                },
            };

            let register = self.register_of_argument(argument_sources[2]);
            proof {
                registers.lemma_wf_values(register);
            }
            let value = match registers.get(register).unwrap().values.value() {
                Ok(value) => value,
                Err(error) => return Err(InstructionEvaluationInterrupt::RegisterError { register, error }),
            };

            Err(
                InstructionEvaluationInterrupt::RegisterError {
                    register,
                    error: RegisterAccessError::InvalidAssignment {
                        error: if result > 0 {
                            AssignIntegerError::ValueMuchTooBig { got: result, maximum: value.maximum() }
                        } else {
                            AssignIntegerError::ValueMuchTooSmall {
                                got: result,
                                minimum: value.minimum(),
                            }
                        },
                    },
                },
            )
        }
    }
}



impl Instruction {
    /// Arguments that fit the requirements of a well-formed property entry for
    /// the instruction's kind, naming registers that exist, give the
    /// instruction what its evaluation reads, once they have been read.
    proof fn lemma_effect_ready(
        self,
        registers: Seq<Option<RegisterView>>,
        properties: InstructionProperties,
        values: ArgumentValues,
        read_time: int,
    )
        requires
            properties.wf_for(self.kind),
            self.spec_arguments_match(properties),
            self.spec_result_target_present(registers, values),
            self.spec_read_arguments(registers, properties) == Ok::<_, InstructionEvaluationInterrupt>((values, read_time)),
            self.kind is Negate ==> (values@[0] matches Some(value) && value > i32::MIN),
        ensures
            self.spec_effect_ready(registers, values),
    {
        assert(self.arguments@[0].spec_matches_requirement(properties.arguments@[0]));
        assert(self.arguments@[1].spec_matches_requirement(properties.arguments@[1]));
        assert(self.arguments@[2].spec_matches_requirement(properties.arguments@[2]));
    }
}

/// The write time and block time of the register an effect pays the write
/// timing of, or nothing.
pub open spec fn spec_write_timing(registers: Seq<Option<RegisterView>>, timed_register: Option<u32>) -> (int, int) {
    match timed_register {
        Some(register) => {
            let view = spec_lookup(registers, register).unwrap();
            (view.write_time as int, view.block_time as int)
        },
        None => (0, 0),
    }
}

impl Instruction {
    /// What evaluating an instruction of this kind reads from its argument
    /// values and slots: the values it computes with, the registers it writes
    /// and the label it jumps to.
    pub open spec fn spec_effect_ready(self, registers: Seq<Option<RegisterView>>, values: ArgumentValues) -> bool {
        let v = values@;
        let a = self.arguments@;
        match self.kind {
            InstructionKind::SetRegister => a[0].spec_as_register() is Some && v[1] is Some,
            InstructionKind::Add | InstructionKind::Subtract | InstructionKind::Multiply
            | InstructionKind::Divide | InstructionKind::Modulus => {
                &&& v[0] is Some
                &&& v[1] is Some
                &&& a[2].spec_as_register() is Some
                &&& self.spec_result_target_present(registers, values)
            },
            InstructionKind::Negate => a[0].spec_as_register() is Some && (v[0] matches Some(value) && value > i32::MIN),
            InstructionKind::IsOdd => a[0].spec_as_register() is Some && v[0] is Some,
            InstructionKind::Compare | InstructionKind::CompareSetIfTrue
            | InstructionKind::CompareSetIfFalse => a[1].spec_as_register() is Some && v[0] is Some,
            InstructionKind::Jump | InstructionKind::JumpCondLikely
            | InstructionKind::JumpCondUnlikely => a[1] is Instruction,
            InstructionKind::Sleep => v[0] is Some,
            InstructionKind::End | InstructionKind::TryRead => true,
            InstructionKind::TryWrite | InstructionKind::Clock => a[0].spec_as_register() is Some,
        }
    }

    /// Carries out what the instruction does with its argument values: buffers
    /// its write, and returns where it jumps, the extra time it sleeps, and the
    /// write time and block time of the register it writes.
    fn perform(
        &self,
        registers: &mut RegisterSet,
        argument_values: ArgumentValues,
        runtime: u64,
    ) -> (result: Result<(Option<u32>, u32, u32, u32), InstructionEvaluationInterrupt>)
        requires
            old(registers).wf(),
            self.spec_effect_ready(old(registers).spec_registers(), argument_values),
        ensures
            final(registers).spec_registers() == old(registers).spec_registers(),
            final(registers).wf(),
            match self.spec_effect(old(registers).spec_registers(), argument_values, runtime) {
                Ok(effect) => {
                    &&& result matches Ok((jump, extra_time, write_time, write_block_time))
                    &&& jump == effect.jump
                    &&& extra_time == effect.extra_time
                    &&& (write_time as int, write_block_time as int) == spec_write_timing(
                        old(registers).spec_registers(),
                        effect.timed_register,
                    )
                    &&& final(registers).spec_buffered_writes() == match effect.write {
                        Some(write) => old(registers).spec_buffered_writes().push(write),
                        None => old(registers).spec_buffered_writes(),
                    }
                },
                Err(interrupt) => {
                    &&& result == Err::<(Option<u32>, u32, u32, u32), _>(interrupt)
                    &&& final(registers).spec_buffered_writes() == old(registers).spec_buffered_writes()
                },
            },
    {
        let mut jump: Option<u32> = None;
        let mut extra_time: u32 = 0;
        let mut write_time: u32 = 0;
        let mut write_block_time: u32 = 0;

        match self.kind {
            InstructionKind::SetRegister => {
                match self.write_to_argument(registers, 0, argument_values[1].unwrap()) {
                    Ok(register) => register.set_time_to_write(&mut write_time, &mut write_block_time),
                    Err(interrupt) => return Err(interrupt),
                }
            },
            InstructionKind::Add | InstructionKind::Subtract | InstructionKind::Multiply
            | InstructionKind::Divide | InstructionKind::Modulus => {
                match self.apply_operation(argument_values, registers, [0, 1, 2]) {
                    Ok(register) => register.set_time_to_write(&mut write_time, &mut write_block_time),
                    Err(interrupt) => return Err(interrupt),
                }
            },
            InstructionKind::Negate => {
                match self.write_to_argument(registers, 0, -argument_values[0].unwrap()) {
                    Ok(register) => register.set_time_to_write(&mut write_time, &mut write_block_time),
                    Err(interrupt) => return Err(interrupt),
                }
            },
            InstructionKind::IsOdd => {
                let parity = match argument_values[0].unwrap().checked_rem_euclid(2) {
                    Some(parity) => parity,
                    None => 0,
                };
                match self.write_to_argument(registers, 0, parity) {
                    Ok(register) => register.set_time_to_write(&mut write_time, &mut write_block_time),
                    Err(interrupt) => return Err(interrupt),
                }
            },
            InstructionKind::Compare => {
                match self.write_to_argument(registers, 1, argument_values[0].unwrap()) {
                    Ok(register) => register.set_time_to_write(&mut write_time, &mut write_block_time),
                    Err(interrupt) => return Err(interrupt),
                }
            },
            InstructionKind::CompareSetIfTrue => {
                let result = argument_values[0].unwrap();

                if result == 1 {
                    match self.write_to_argument(registers, 1, result) {
                        Ok(register) => register.set_time_to_write(&mut write_time, &mut write_block_time),
                        Err(interrupt) => return Err(interrupt),
                    }
                }
            },
            InstructionKind::CompareSetIfFalse => {
                let result = argument_values[0].unwrap();

                if result == 0 {
                    match self.write_to_argument(registers, 1, result) {
                        Ok(register) => register.set_time_to_write(&mut write_time, &mut write_block_time),
                        Err(interrupt) => return Err(interrupt),
                    }
                }
            },
            InstructionKind::Jump | InstructionKind::JumpCondLikely
            | InstructionKind::JumpCondUnlikely => {
                let taken = match argument_values[0] {
                    Some(condition) => condition != 0,
                    None => true,
                };
                if taken {
                    jump = Some(*self.arguments[1].as_instruction().unwrap());
                }
            },
            InstructionKind::Sleep => {
                let duration = argument_values[0].unwrap();
                if duration > 0 {
                    extra_time = duration as u32;
                }
            },
            InstructionKind::End => return Err(InstructionEvaluationInterrupt::ProgramComplete),
            InstructionKind::TryRead => {},
            InstructionKind::TryWrite => {
                let register = self.register_of_argument(0);
                proof {
                    registers.lemma_wf_values(register);
                }

                match registers.get(register) {
                    Some(register) => register.set_time_to_write(&mut write_time, &mut write_block_time),
                    None => {
                        return Err(
                            InstructionEvaluationInterrupt::RegisterError {
                                register,
                                error: RegisterAccessError::NoSuchRegister { got: register },
                            },
                        )
                    },
                }
            },
            InstructionKind::Clock => {
                let register_index = self.register_of_argument(0);
                proof {
                    registers.lemma_wf_values(register_index);
                }

                let register = match registers.get(register_index) {
                    Some(register) => register,
                    None => {
                        return Err(
                            InstructionEvaluationInterrupt::RegisterError {
                                register: register_index,
                                error: RegisterAccessError::NoSuchRegister { got: register_index },
                            },
                        )
                    },
                };

                let value = match register.values.value() {
                    Ok(value) => value,
                    Err(error) => {
                        return Err(
                            InstructionEvaluationInterrupt::RegisterError {
                                register: register_index,
                                error,
                            },
                        )
                    },
                };

                let bound = value.maximum() as u64 + 1;

                let requested_digits = match argument_values[1] {
                    Some(digits) => digits,
                    None => 0,
                };
                let digits: u32 = if requested_digits > 0 { requested_digits as u32 } else { 0 };

                proof {
                    lemma_power_of_ten_grows(0, digits as nat);
                }
                let clock = match checked_power_of_ten(digits) {
                    Some(divisor) => (runtime / divisor % bound) as Integer,
                    None => 0,
                };

                match self.write_to_argument(registers, 0, clock) {
                    Ok(register) => register.set_time_to_write(&mut write_time, &mut write_block_time),
                    Err(interrupt) => return Err(interrupt),
                }
            },
        }

        Ok((jump, extra_time, write_time, write_block_time))
    }
}

impl Instruction {
    /// Returns the total time and energy taken by the instruction, the value of
    /// each input, and whether or not to update `previous_instruction`.
    #[verifier::spinoff_prover]
    #[verifier::rlimit(40)]
    pub fn evaluate(
        &self,
        registers: &mut RegisterSet,
        instruction_properties: &InstructionKindMap<InstructionProperties>,
        previous_instruction: Option<(&Instruction, &ArgumentValues)>,
        next_instruction: &mut u32,
        runtime: u64,
    ) -> (result: Result<(u32, u32, ArgumentValues, bool), InstructionEvaluationInterrupt>)
        requires
            old(registers).wf(),
            spec_instruction_table_wf(*instruction_properties),
            self.spec_arguments_match(instruction_properties.spec_get(self.kind)),
            self.spec_overflow_target_present(old(registers).spec_registers(), *instruction_properties),
            self.spec_time_fits(
                old(registers).spec_registers(),
                *instruction_properties,
                spec_previous(previous_instruction),
                runtime,
            ),
            *old(next_instruction) < u32::MAX,
        ensures
            final(registers).spec_registers() == old(registers).spec_registers(),
            final(registers).wf(),
            match self.spec_evaluate(
                old(registers).spec_registers(),
                *instruction_properties,
                spec_previous(previous_instruction),
                runtime,
            ) {
                Ok((time, energy, values, update, effect)) => {
                    &&& result == Ok::<_, InstructionEvaluationInterrupt>((time, energy, values, update))
                    &&& final(registers).spec_buffered_writes() == match effect.write {
                        Some(write) => old(registers).spec_buffered_writes().push(write),
                        None => old(registers).spec_buffered_writes(),
                    }
                    &&& *final(next_instruction) == match effect.jump {
                        Some(target) => target,
                        None => (*old(next_instruction) + 1) as u32,
                    }
                },
                Err(interrupt) => {
                    &&& result == Err::<(u32, u32, ArgumentValues, bool), _>(interrupt)
                    &&& final(registers).spec_buffered_writes() == old(registers).spec_buffered_writes()
                    &&& *final(next_instruction) == *old(next_instruction)
                },
            },
    {
        let properties = instruction_properties.get(self.kind);
        let ghost registers0 = registers.spec_registers();

        proof {
            assert(self.arguments@[0].spec_matches_requirement(properties.arguments@[0]));
            assert(self.arguments@[1].spec_matches_requirement(properties.arguments@[1]));
            assert(self.arguments@[2].spec_matches_requirement(properties.arguments@[2]));
        }

        let (value0, time0) = match self.read_argument(0, registers, properties.arguments[0]) {
            Ok(read) => read,
            Err(interrupt) => return Err(interrupt),
        };
        let (value1, time1) = match self.read_argument(1, registers, properties.arguments[1]) {
            Ok(read) => read,
            Err(interrupt) => return Err(interrupt),
        };
        let (value2, time2) = match self.read_argument(2, registers, properties.arguments[2]) {
            Ok(read) => read,
            Err(interrupt) => return Err(interrupt),
        };
        let argument_values: ArgumentValues = [value0, value1, value2];

        let mut read_time = if time0 >= time1 { time0 } else { time1 };
        if time2 > read_time {
            read_time = time2;
        }

        let (instruction_time, instruction_energy, update_previous_instruction) = self.execution_time(
            instruction_properties,
            previous_instruction,
            &argument_values,
        );

        proof {
            assert(self.spec_read_arguments(registers0, *properties) == Ok::<_, InstructionEvaluationInterrupt>((argument_values, read_time as int)));
            self.lemma_effect_ready(registers0, *properties, argument_values, read_time as int);
        }

        let (jump, extra_time, write_time, write_block_time) = match self.perform(registers, argument_values, runtime) {
            Ok(performed) => performed,
            Err(interrupt) => return Err(interrupt),
        };
        let started = read_time + instruction_time as u64 + extra_time as u64;
        let longest = if started >= write_block_time as u64 { started } else { write_block_time as u64 };
        let total_time = (longest + write_time as u64) as u32;

        if let Some(jump) = jump {
            *next_instruction = jump;
        } else {
            *next_instruction += 1;
        }

        Ok((total_time, instruction_energy, argument_values, update_previous_instruction))
    }
}

/// The properties every instruction starts from: no arguments, no time, no
/// energy, and one call per tick.
pub open spec fn spec_base_properties() -> InstructionProperties {
    InstructionProperties {
        kind: InstructionKind::SetRegister,
        name: "",
        arguments: [ArgumentRequirement::Empty, ArgumentRequirement::Empty, ArgumentRequirement::Empty],
        base_time: 0,
        conditional_time: None,
        base_energy: 0,
        conditional_energy: None,
        calls_per_tick_limit: Some(1u8),
        group: None,
    }
}

impl Default for InstructionProperties {
    fn default() -> (result: Self)
        ensures
            result == spec_base_properties(),
    {
        InstructionProperties {
            kind: InstructionKind::SetRegister,
            name: "",
            arguments: [
                ArgumentRequirement::Empty,
                ArgumentRequirement::Empty,
                ArgumentRequirement::Empty,
            ],
            base_time: 0,
            conditional_time: None,
            base_energy: 0,
            conditional_energy: None,
            calls_per_tick_limit: Some(1),
            group: None,
        }
    }
}


/// The properties of each instruction on a standard machine.
pub open spec fn spec_default_properties(kind: InstructionKind) -> InstructionProperties {
    match kind {
        InstructionKind::SetRegister => InstructionProperties {
            kind: InstructionKind::SetRegister,
            name: "SET",
            arguments: [ArgumentRequirement::RegisterWriteOnly, ArgumentRequirement::ConstantOrRegister, ArgumentRequirement::Empty],
            base_time: 1,
            base_energy: 1,
            ..spec_base_properties()
        },
        InstructionKind::Add => InstructionProperties {
            kind: InstructionKind::Add,
            name: "ADD",
            arguments: [ArgumentRequirement::ConstantOrRegister, ArgumentRequirement::ConstantOrRegister, ArgumentRequirement::RegisterWriteOnly],
            base_time: 1,
            base_energy: 2,
            ..spec_base_properties()
        },
        InstructionKind::Subtract => InstructionProperties {
            kind: InstructionKind::Subtract,
            name: "SUB",
            arguments: [ArgumentRequirement::ConstantOrRegister, ArgumentRequirement::ConstantOrRegister, ArgumentRequirement::RegisterWriteOnly],
            base_time: 1,
            base_energy: 2,
            group: Some((InstructionKind::Negate, PropertyCondition::ArgumentTypeMatches { argument: 1, requirement: ArgumentRequirement::Register })),
            ..spec_base_properties()
        },
        InstructionKind::Negate => InstructionProperties {
            kind: InstructionKind::Negate,
            name: "NEG",
            arguments: [ArgumentRequirement::Register, ArgumentRequirement::Empty, ArgumentRequirement::Empty],
            base_energy: 1,
            ..spec_base_properties()
        },
        InstructionKind::Multiply => InstructionProperties {
            kind: InstructionKind::Multiply,
            name: "MUL",
            arguments: [ArgumentRequirement::ConstantOrRegister, ArgumentRequirement::ConstantOrRegister, ArgumentRequirement::RegisterWriteOnly],
            base_time: 2,
            base_energy: 4,
            ..spec_base_properties()
        },
        InstructionKind::Divide => InstructionProperties {
            kind: InstructionKind::Divide,
            name: "DIV",
            arguments: [ArgumentRequirement::ConstantOrRegister, ArgumentRequirement::ConstantOrRegister, ArgumentRequirement::RegisterWriteOnly],
            base_time: 4,
            conditional_time: Some((1, PropertyCondition::SameAsPrevious { kind: InstructionKind::Modulus, allow_cascade: false })),
            base_energy: 8,
            conditional_energy: Some(0),
            ..spec_base_properties()
        },
        InstructionKind::Modulus => InstructionProperties {
            kind: InstructionKind::Modulus,
            name: "REM",
            arguments: [ArgumentRequirement::ConstantOrRegister, ArgumentRequirement::ConstantOrRegister, ArgumentRequirement::RegisterWriteOnly],
            base_time: 4,
            conditional_time: Some((1, PropertyCondition::SameAsPrevious { kind: InstructionKind::Divide, allow_cascade: false })),
            base_energy: 8,
            conditional_energy: Some(0),
            ..spec_base_properties()
        },
        InstructionKind::IsOdd => InstructionProperties {
            kind: InstructionKind::IsOdd,
            name: "ODD",
            arguments: [ArgumentRequirement::Register, ArgumentRequirement::Empty, ArgumentRequirement::Empty],
            base_time: 0,
            base_energy: 1,
            ..spec_base_properties()
        },
        InstructionKind::Compare => InstructionProperties {
            kind: InstructionKind::Compare,
            name: "CMP",
            arguments: [ArgumentRequirement::Comparison, ArgumentRequirement::RegisterWriteOnly, ArgumentRequirement::Empty],
            base_time: 1,
            base_energy: 1,
            ..spec_base_properties()
        },
        InstructionKind::CompareSetIfTrue => InstructionProperties {
            kind: InstructionKind::CompareSetIfTrue,
            name: "TCP",
            arguments: [ArgumentRequirement::Comparison, ArgumentRequirement::RegisterWriteOnly, ArgumentRequirement::Empty],
            base_time: 2,
            base_energy: 2,
            ..spec_base_properties()
        },
        InstructionKind::CompareSetIfFalse => InstructionProperties {
            kind: InstructionKind::CompareSetIfFalse,
            name: "FCP",
            arguments: [ArgumentRequirement::Comparison, ArgumentRequirement::RegisterWriteOnly, ArgumentRequirement::Empty],
            base_time: 2,
            base_energy: 2,
            ..spec_base_properties()
        },
        InstructionKind::Jump => InstructionProperties {
            kind: InstructionKind::Jump,
            name: "JMP",
            arguments: [ArgumentRequirement::AnyValueOrEmpty, ArgumentRequirement::Instruction, ArgumentRequirement::Empty],
            base_time: 1,
            conditional_time: Some((0, PropertyCondition::ArgumentTypeMatches { argument: 0, requirement: ArgumentRequirement::ConstantOrEmpty })),
            base_energy: 1,
            ..spec_base_properties()
        },
        InstructionKind::JumpCondLikely => InstructionProperties {
            kind: InstructionKind::JumpCondLikely,
            name: "LJP",
            arguments: [ArgumentRequirement::AnyValue, ArgumentRequirement::Instruction, ArgumentRequirement::Empty],
            base_time: 0,
            conditional_time: Some((5, PropertyCondition::ArgumentMatches { argument: 0, value: 0 })),
            base_energy: 5,
            group: Some((InstructionKind::Jump, PropertyCondition::Always)),
            ..spec_base_properties()
        },
        InstructionKind::JumpCondUnlikely => InstructionProperties {
            kind: InstructionKind::JumpCondUnlikely,
            name: "UJP",
            arguments: [ArgumentRequirement::AnyValue, ArgumentRequirement::Instruction, ArgumentRequirement::Empty],
            base_time: 5,
            conditional_time: Some((0, PropertyCondition::ArgumentMatches { argument: 0, value: 0 })),
            base_energy: 5,
            group: Some((InstructionKind::Jump, PropertyCondition::Always)),
            ..spec_base_properties()
        },
        InstructionKind::Sleep => InstructionProperties {
            kind: InstructionKind::Sleep,
            name: "SLP",
            arguments: [ArgumentRequirement::ConstantOrRegister, ArgumentRequirement::Empty, ArgumentRequirement::Empty],
            calls_per_tick_limit: None,
            ..spec_base_properties()
        },
        InstructionKind::End => InstructionProperties {
            kind: InstructionKind::End,
            name: "END",
            arguments: [ArgumentRequirement::Empty, ArgumentRequirement::Empty, ArgumentRequirement::Empty],

            ..spec_base_properties()
        },
        InstructionKind::TryRead => InstructionProperties {
            kind: InstructionKind::TryRead,
            name: "TRY",
            arguments: [ArgumentRequirement::Register, ArgumentRequirement::Empty, ArgumentRequirement::Empty],
            calls_per_tick_limit: None,
            ..spec_base_properties()
        },
        InstructionKind::TryWrite => InstructionProperties {
            kind: InstructionKind::TryWrite,
            name: "TRW",
            arguments: [ArgumentRequirement::RegisterWriteOnly, ArgumentRequirement::Empty, ArgumentRequirement::Empty],
            calls_per_tick_limit: None,
            ..spec_base_properties()
        },
        InstructionKind::Clock => InstructionProperties {
            kind: InstructionKind::Clock,
            name: "CLK",
            arguments: [ArgumentRequirement::RegisterWriteOnly, ArgumentRequirement::ConstantOrEmpty, ArgumentRequirement::Empty],
            base_energy: 2,
            ..spec_base_properties()
        },
    }
}

impl InstructionKind {
    pub fn get_default_properties(self) -> (result: InstructionProperties)
        ensures
            result == spec_default_properties(self),
    {
        let base = InstructionProperties::default();
        match self {
            InstructionKind::SetRegister => InstructionProperties {
                kind: InstructionKind::SetRegister,
                name: "SET",
                arguments: [ArgumentRequirement::RegisterWriteOnly, ArgumentRequirement::ConstantOrRegister, ArgumentRequirement::Empty],
                base_time: 1,
                base_energy: 1,
                ..base
            },
            InstructionKind::Add => InstructionProperties {
                kind: InstructionKind::Add,
                name: "ADD",
                arguments: [ArgumentRequirement::ConstantOrRegister, ArgumentRequirement::ConstantOrRegister, ArgumentRequirement::RegisterWriteOnly],
                base_time: 1,
                base_energy: 2,
                ..base
            },
            InstructionKind::Subtract => InstructionProperties {
                kind: InstructionKind::Subtract,
                name: "SUB",
                arguments: [ArgumentRequirement::ConstantOrRegister, ArgumentRequirement::ConstantOrRegister, ArgumentRequirement::RegisterWriteOnly],
                base_time: 1,
                base_energy: 2,
                group: Some((InstructionKind::Negate, PropertyCondition::ArgumentTypeMatches { argument: 1, requirement: ArgumentRequirement::Register })),
                ..base
            },
            InstructionKind::Negate => InstructionProperties {
                kind: InstructionKind::Negate,
                name: "NEG",
                arguments: [ArgumentRequirement::Register, ArgumentRequirement::Empty, ArgumentRequirement::Empty],
                base_energy: 1,
                ..base
            },
            InstructionKind::Multiply => InstructionProperties {
                kind: InstructionKind::Multiply,
                name: "MUL",
                arguments: [ArgumentRequirement::ConstantOrRegister, ArgumentRequirement::ConstantOrRegister, ArgumentRequirement::RegisterWriteOnly],
                base_time: 2,
                base_energy: 4,
                ..base
            },
            InstructionKind::Divide => InstructionProperties {
                kind: InstructionKind::Divide,
                name: "DIV",
                arguments: [ArgumentRequirement::ConstantOrRegister, ArgumentRequirement::ConstantOrRegister, ArgumentRequirement::RegisterWriteOnly],
                base_time: 4,
                conditional_time: Some((1, PropertyCondition::SameAsPrevious { kind: InstructionKind::Modulus, allow_cascade: false })),
                base_energy: 8,
                conditional_energy: Some(0),
                ..base
            },
            InstructionKind::Modulus => InstructionProperties {
                kind: InstructionKind::Modulus,
                name: "REM",
                arguments: [ArgumentRequirement::ConstantOrRegister, ArgumentRequirement::ConstantOrRegister, ArgumentRequirement::RegisterWriteOnly],
                base_time: 4,
                conditional_time: Some((1, PropertyCondition::SameAsPrevious { kind: InstructionKind::Divide, allow_cascade: false })),
                base_energy: 8,
                conditional_energy: Some(0),
                ..base
            },
            InstructionKind::IsOdd => InstructionProperties {
                kind: InstructionKind::IsOdd,
                name: "ODD",
                arguments: [ArgumentRequirement::Register, ArgumentRequirement::Empty, ArgumentRequirement::Empty],
                base_time: 0,
                base_energy: 1,
                ..base
            },
            InstructionKind::Compare => InstructionProperties {
                kind: InstructionKind::Compare,
                name: "CMP",
                arguments: [ArgumentRequirement::Comparison, ArgumentRequirement::RegisterWriteOnly, ArgumentRequirement::Empty],
                base_time: 1,
                base_energy: 1,
                ..base
            },
            InstructionKind::CompareSetIfTrue => InstructionProperties {
                kind: InstructionKind::CompareSetIfTrue,
                name: "TCP",
                arguments: [ArgumentRequirement::Comparison, ArgumentRequirement::RegisterWriteOnly, ArgumentRequirement::Empty],
                base_time: 2,
                base_energy: 2,
                ..base
            },
            InstructionKind::CompareSetIfFalse => InstructionProperties {
                kind: InstructionKind::CompareSetIfFalse,
                name: "FCP",
                arguments: [ArgumentRequirement::Comparison, ArgumentRequirement::RegisterWriteOnly, ArgumentRequirement::Empty],
                base_time: 2,
                base_energy: 2,
                ..base
            },
            InstructionKind::Jump => InstructionProperties {
                kind: InstructionKind::Jump,
                name: "JMP",
                arguments: [ArgumentRequirement::AnyValueOrEmpty, ArgumentRequirement::Instruction, ArgumentRequirement::Empty],
                base_time: 1,
                conditional_time: Some((0, PropertyCondition::ArgumentTypeMatches { argument: 0, requirement: ArgumentRequirement::ConstantOrEmpty })),
                base_energy: 1,
                ..base
            },
            InstructionKind::JumpCondLikely => InstructionProperties {
                kind: InstructionKind::JumpCondLikely,
                name: "LJP",
                arguments: [ArgumentRequirement::AnyValue, ArgumentRequirement::Instruction, ArgumentRequirement::Empty],
                base_time: 0,
                conditional_time: Some((5, PropertyCondition::ArgumentMatches { argument: 0, value: 0 })),
                base_energy: 5,
                group: Some((InstructionKind::Jump, PropertyCondition::Always)),
                ..base
            },
            InstructionKind::JumpCondUnlikely => InstructionProperties {
                kind: InstructionKind::JumpCondUnlikely,
                name: "UJP",
                arguments: [ArgumentRequirement::AnyValue, ArgumentRequirement::Instruction, ArgumentRequirement::Empty],
                base_time: 5,
                conditional_time: Some((0, PropertyCondition::ArgumentMatches { argument: 0, value: 0 })),
                base_energy: 5,
                group: Some((InstructionKind::Jump, PropertyCondition::Always)),
                ..base
            },
            InstructionKind::Sleep => InstructionProperties {
                kind: InstructionKind::Sleep,
                name: "SLP",
                arguments: [ArgumentRequirement::ConstantOrRegister, ArgumentRequirement::Empty, ArgumentRequirement::Empty],
                calls_per_tick_limit: None,
                ..base
            },
            InstructionKind::End => InstructionProperties {
                kind: InstructionKind::End,
                name: "END",
                arguments: [ArgumentRequirement::Empty, ArgumentRequirement::Empty, ArgumentRequirement::Empty],

                ..base
            },
            InstructionKind::TryRead => InstructionProperties {
                kind: InstructionKind::TryRead,
                name: "TRY",
                arguments: [ArgumentRequirement::Register, ArgumentRequirement::Empty, ArgumentRequirement::Empty],
                calls_per_tick_limit: None,
                ..base
            },
            InstructionKind::TryWrite => InstructionProperties {
                kind: InstructionKind::TryWrite,
                name: "TRW",
                arguments: [ArgumentRequirement::RegisterWriteOnly, ArgumentRequirement::Empty, ArgumentRequirement::Empty],
                calls_per_tick_limit: None,
                ..base
            },
            InstructionKind::Clock => InstructionProperties {
                kind: InstructionKind::Clock,
                name: "CLK",
                arguments: [ArgumentRequirement::RegisterWriteOnly, ArgumentRequirement::ConstantOrEmpty, ArgumentRequirement::Empty],
                base_energy: 2,
                ..base
            },
        }
    }
}

/// The standard table describes each kind in a form the simulator can evaluate.
pub proof fn lemma_default_instructions_wf(table: InstructionKindMap<InstructionProperties>)
    requires
        forall|kind: InstructionKind| #[trigger] table.spec_get(kind) == spec_default_properties(kind),
    ensures
        spec_instruction_table_wf(table),
{
    assert forall|kind: InstructionKind|
        #![trigger table.spec_get(kind)]
        table.spec_get(kind).wf_for(kind) by {
        assert(table.spec_get(kind) == spec_default_properties(kind));
    }
}

/// The properties of every instruction on a standard machine.
pub fn default_instructions() -> (result: InstructionKindMap<InstructionProperties>)
    ensures
        forall|kind: InstructionKind| #[trigger] result.spec_get(kind) == spec_default_properties(kind),
        spec_instruction_table_wf(result),
{
    let result = InstructionKindMap(
        [
            InstructionKind::SetRegister.get_default_properties(),
            InstructionKind::Add.get_default_properties(),
            InstructionKind::Subtract.get_default_properties(),
            InstructionKind::Negate.get_default_properties(),
            InstructionKind::Multiply.get_default_properties(),
            InstructionKind::Divide.get_default_properties(),
            InstructionKind::Modulus.get_default_properties(),
            InstructionKind::IsOdd.get_default_properties(),
            InstructionKind::Compare.get_default_properties(),
            InstructionKind::CompareSetIfTrue.get_default_properties(),
            InstructionKind::CompareSetIfFalse.get_default_properties(),
            InstructionKind::Jump.get_default_properties(),
            InstructionKind::JumpCondLikely.get_default_properties(),
            InstructionKind::JumpCondUnlikely.get_default_properties(),
            InstructionKind::Sleep.get_default_properties(),
            InstructionKind::End.get_default_properties(),
            InstructionKind::TryRead.get_default_properties(),
            InstructionKind::TryWrite.get_default_properties(),
            InstructionKind::Clock.get_default_properties(),
        ],
    );
    proof {
        assert forall|kind: InstructionKind| #[trigger] result.spec_get(kind) == spec_default_properties(kind) by {
            match kind {
                _ => {},
            }
        }
        lemma_default_instructions_wf(result);
    }
    result
}

/// How an argument requirement is described.
pub open spec fn spec_requirement_text(requirement: ArgumentRequirement) -> Seq<char> {
    match requirement {
        ArgumentRequirement::Constant => "a constant"@,
        ArgumentRequirement::RegisterWriteOnly | ArgumentRequirement::Register => "a register"@,
        ArgumentRequirement::ConstantOrRegister => "a constant or register"@,
        ArgumentRequirement::Comparison => "a comparison"@,
        ArgumentRequirement::AnyValue => "a constant, register, or comparison"@,
        ArgumentRequirement::AnyValueOrEmpty => "a constant, register, comparison, or nothing"@,
        ArgumentRequirement::Instruction => "a label"@,
        ArgumentRequirement::ConstantOrEmpty => "a constant or nothing"@,
        ArgumentRequirement::Empty => "nothing"@,
    }
}

impl ArgumentRequirement {
    /// Appends how the requirement is described.
    pub fn push_text(&self, out: &mut Vec<char>)
        ensures
            final(out)@ == old(out)@ + spec_requirement_text(*self),
    {
        match self {
            ArgumentRequirement::Constant => push_str(out, "a constant"),
            ArgumentRequirement::RegisterWriteOnly | ArgumentRequirement::Register => push_str(
                out,
                "a register",
            ),
            ArgumentRequirement::ConstantOrRegister => push_str(out, "a constant or register"),
            ArgumentRequirement::Comparison => push_str(out, "a comparison"),
            ArgumentRequirement::AnyValue => push_str(out, "a constant, register, or comparison"),
            ArgumentRequirement::AnyValueOrEmpty => push_str(
                out,
                "a constant, register, comparison, or nothing",
            ),
            ArgumentRequirement::Instruction => push_str(out, "a label"),
            ArgumentRequirement::ConstantOrEmpty => push_str(out, "a constant or nothing"),
            ArgumentRequirement::Empty => push_str(out, "nothing"),
        }
    }

    /// How the requirement is described.
    pub fn to_display_string(&self) -> (result: String)
        ensures
            result@ == spec_requirement_text(*self),
    {
        let mut out: Vec<char> = Vec::new();
        self.push_text(&mut out);
        proof {
            assert(out@ =~= spec_requirement_text(*self));
        }
        string_from_chars(out.as_slice())
    }
}

/// The text of the arguments from `slot` on: each one that is not empty,
/// after a space.
pub open spec fn spec_arguments_text(arguments: Seq<Argument>, slot: int) -> Seq<char>
    decreases NUM_ARGUMENTS - slot,
{
    if slot >= NUM_ARGUMENTS {
        Seq::empty()
    } else if arguments[slot] is Empty {
        spec_arguments_text(arguments, slot + 1)
    } else {
        seq![' '] + spec_argument_text(arguments[slot]) + spec_arguments_text(arguments, slot + 1)
    }
}

/// How an instruction is written: its operation's name, then each argument
/// that is not empty.
pub open spec fn spec_instruction_text(instruction: Instruction) -> Seq<char> {
    spec_default_properties(instruction.kind).name@ + spec_arguments_text(instruction.arguments@, 0)
}

impl Instruction {
    /// How the instruction is written.
    pub fn to_display_string(&self) -> (result: String)
        requires
            forall|i: int| 0 <= i < NUM_ARGUMENTS ==> spec_argument_named(#[trigger] self.arguments@[i]),
        ensures
            result@ == spec_instruction_text(*self),
    {
        let mut out: Vec<char> = Vec::new();
        push_str(&mut out, self.kind.get_default_properties().name);
        let ghost name = out@;
        let mut i: usize = 0;
        while i < NUM_ARGUMENTS
            invariant
                i <= NUM_ARGUMENTS,
                forall|j: int| 0 <= j < NUM_ARGUMENTS ==> spec_argument_named(#[trigger] self.arguments@[j]),
                name + spec_arguments_text(self.arguments@, 0) == out@ + spec_arguments_text(
                    self.arguments@,
                    i as int,
                ),
            decreases NUM_ARGUMENTS - i,
        {
            let argument = self.arguments[i];
            if !argument.is_empty() {
                let ghost before = out@;
                out.push(' ');
                argument.push_text(&mut out);
                proof {
                    assert(before + spec_arguments_text(self.arguments@, i as int) =~= out@
                        + spec_arguments_text(self.arguments@, i + 1));
                }
            }
            i += 1;
        }
        proof {
            assert(out@ + spec_arguments_text(self.arguments@, 3) =~= out@);
            assert(name == spec_default_properties(self.kind).name@);
        }
        string_from_chars(out.as_slice())
    }
}

} // verus!
