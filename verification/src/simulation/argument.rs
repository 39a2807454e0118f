use vstd::prelude::*;

use super::computer::{
    name_of_register, spec_lookup, spec_name_of_register, RegisterAccessError, RegisterSet,
    RegisterView,
};
use super::text::{push_decimal, push_str, spec_decimal};
use super::instruction::{ArgumentRequirement, InstructionEvaluationInterrupt};
use super::integer::{spec_largest_magnitude, Integer};

verus! {

/// The three outcomes of comparing two numbers.
#[derive(Clone, Copy, Debug, PartialEq, Eq, Structural)]
pub enum Order {
    Less,
    Equal,
    Greater,
}

/// How `lhs` compares to `rhs`.
pub open spec fn spec_order_of(lhs: int, rhs: int) -> Order {
    if lhs < rhs {
        Order::Less
    } else if lhs == rhs {
        Order::Equal
    } else {
        Order::Greater
    }
}

pub fn order_of(lhs: Integer, rhs: Integer) -> (result: Order)
    ensures
        result == spec_order_of(lhs as int, rhs as int),
{
    if lhs < rhs {
        Order::Less
    } else if lhs == rhs {
        Order::Equal
    } else {
        Order::Greater
    }
}

#[derive(Clone, Copy, Debug)]
pub enum Argument {
    Instruction(u32),
    Number(NumberSource),
    Comparison(Comparison),
    Empty,
}

#[derive(Clone, Copy, Debug, PartialEq, Eq, Structural)]
pub enum NumberSource {
    Register(u32),
    Constant(Integer),
}

#[derive(Clone, Copy, Debug)]
pub struct Comparison {
    pub ordering: Order,
    pub invert: bool,
    pub values: [NumberSource; 2],
}

impl Argument {
    pub open spec fn spec_matches_requirement(self, requirement: ArgumentRequirement) -> bool {
        let constant = self matches Argument::Number(NumberSource::Constant(_));
        let register = self matches Argument::Number(NumberSource::Register(_));
        let number = self is Number;
        let comparison = self is Comparison;
        let empty = self is Empty;
        match requirement {
            ArgumentRequirement::Constant => constant,
            ArgumentRequirement::Register => register,
            ArgumentRequirement::RegisterWriteOnly => register,
            ArgumentRequirement::ConstantOrRegister => number,
            ArgumentRequirement::Comparison => comparison,
            ArgumentRequirement::AnyValue => number || comparison,
            ArgumentRequirement::AnyValueOrEmpty => number || comparison || empty,
            ArgumentRequirement::Instruction => self is Instruction,
            ArgumentRequirement::ConstantOrEmpty => constant || empty,
            ArgumentRequirement::Empty => empty,
        }
    }

    pub fn matches_requirement(&self, requirement: ArgumentRequirement) -> (result: bool)
        ensures
            result == self.spec_matches_requirement(requirement),
    {
        match requirement {
            ArgumentRequirement::Constant => {
                matches!(self, Argument::Number(NumberSource::Constant(_)))
            },
            ArgumentRequirement::Register | ArgumentRequirement::RegisterWriteOnly => {
                matches!(self, Argument::Number(NumberSource::Register(_)))
            },
            ArgumentRequirement::ConstantOrRegister => matches!(self, Argument::Number(_)),
            ArgumentRequirement::Comparison => matches!(self, Argument::Comparison(_)),
            ArgumentRequirement::AnyValue => {
                matches!(self, Argument::Number(_) | Argument::Comparison(_))
            },
            ArgumentRequirement::AnyValueOrEmpty => {
                matches!(self, Argument::Number(_) | Argument::Comparison(_) | Argument::Empty)
            },
            ArgumentRequirement::Instruction => matches!(self, Argument::Instruction(_)),
            ArgumentRequirement::ConstantOrEmpty => {
                matches!(self, Argument::Number(NumberSource::Constant(_)) | Argument::Empty)
            },
            ArgumentRequirement::Empty => matches!(self, Argument::Empty),
        }
    }

    /// Whether the argument is given: anything but `Empty`.
    pub fn is_specified(&self) -> (result: bool)
        ensures
            result == !(*self is Empty),
    {
        !matches!(self, Argument::Empty)
    }

    /// Returns `true` if the argument is `Empty`.
    pub fn is_empty(&self) -> (result: bool)
        ensures
            result == (*self is Empty),
    {
        matches!(self, Argument::Empty)
    }

    pub fn as_instruction(&self) -> (result: Option<&u32>)
        ensures
            match *self {
                Argument::Instruction(index) => result == Some(&index),
                _ => result is None,
            },
    {
        match self {
            Argument::Instruction(index) => Some(index),
            _ => None,
        }
    }

    pub fn as_number(&self) -> (result: Option<&NumberSource>)
        ensures
            match *self {
                Argument::Number(source) => result == Some(&source),
                _ => result is None,
            },
    {
        match self {
            Argument::Number(source) => Some(source),
            _ => None,
        }
    }

    pub fn as_comparison(&self) -> (result: Option<&Comparison>)
        ensures
            match *self {
                Argument::Comparison(comparison) => result == Some(&comparison),
                _ => result is None,
            },
    {
        match self {
            Argument::Comparison(comparison) => Some(comparison),
            _ => None,
        }
    }

    /// The register named by the argument, if it is a register.
    pub open spec fn spec_as_register(self) -> Option<u32> {
        match self {
            Argument::Number(NumberSource::Register(register)) => Some(register),
            _ => None,
        }
    }

    pub fn as_register(&self) -> (result: Option<u32>)
        ensures
            result == self.spec_as_register(),
    {
        match self {
            Argument::Number(NumberSource::Register(register)) => Some(*register),
            _ => None,
        }
    }

    /// The number sources the argument reads from, in order.
    pub open spec fn spec_number_sources(self) -> Seq<NumberSource> {
        match self {
            Argument::Number(source) => seq![source],
            Argument::Comparison(comparison) => seq![comparison.values[0], comparison.values[1]],
            _ => Seq::empty(),
        }
    }

    pub fn number_sources(&self) -> (result: Vec<NumberSource>)
        ensures
            result@ == self.spec_number_sources(),
    {
        let mut result = Vec::new();
        match self {
            Argument::Number(source) => {
                result.push(*source);
            },
            Argument::Comparison(comparison) => {
                result.push(comparison.values[0]);
                result.push(comparison.values[1]);
            },
            _ => {},
        }
        result
    }
}

/// Reads a register: its selected value, or the interrupt reading it raises.
pub open spec fn spec_read_register(registers: Seq<Option<RegisterView>>, register: u32) -> Result<
    Integer,
    InstructionEvaluationInterrupt,
> {
    match spec_lookup(registers, register) {
        None => Err(
            InstructionEvaluationInterrupt::RegisterError {
                register,
                error: RegisterAccessError::NoSuchRegister { got: register },
            },
        ),
        Some(view) => match view.values.selected() {
            Err(error) => Err(InstructionEvaluationInterrupt::RegisterError { register, error }),
            Ok(value) => Ok(value.spec_get()),
        },
    }
}

impl NumberSource {
    /// The number the source provides.
    pub open spec fn spec_value(self, registers: Seq<Option<RegisterView>>) -> Result<
        Integer,
        InstructionEvaluationInterrupt,
    > {
        match self {
            NumberSource::Register(register) => spec_read_register(registers, register),
            NumberSource::Constant(value) => Ok(value),
        }
    }

    /// Returns the number, and the register it was read from, if any.
    pub fn value(&self, registers: &RegisterSet) -> (result: Result<
        (Integer, Option<u32>),
        InstructionEvaluationInterrupt,
    >)
        requires
            registers.wf(),
        ensures
            match result {
                Ok((value, register)) => {
                    &&& self.spec_value(registers.spec_registers()) == Ok::<
                        _,
                        InstructionEvaluationInterrupt,
                    >(value)
                    &&& register == self.spec_as_register()
                    &&& register is Some ==> -spec_largest_magnitude() <= value
                        <= spec_largest_magnitude()
                },
                Err(interrupt) => self.spec_value(registers.spec_registers()) == Err::<Integer, _>(
                    interrupt,
                ),
            },
    {
        match self {
            NumberSource::Register(index) => {
                let register = match registers.get(*index) {
                    Some(register) => register,
                    None => {
                        return Err(
                            InstructionEvaluationInterrupt::RegisterError {
                                register: *index,
                                error: RegisterAccessError::NoSuchRegister { got: *index },
                            },
                        )
                    },
                };
                proof {
                    registers.lemma_wf_values(*index);
                }
                match register.values.value() {
                    Ok(value) => Ok((value.get(), Some(*index))),
                    Err(error) => Err(
                        InstructionEvaluationInterrupt::RegisterError { register: *index, error },
                    ),
                }
            },
            NumberSource::Constant(value) => Ok((*value, None)),
        }
    }

    pub open spec fn spec_as_register(self) -> Option<u32> {
        match self {
            NumberSource::Register(register) => Some(register),
            NumberSource::Constant(_) => None,
        }
    }

    pub fn as_register(&self) -> (result: Option<u32>)
        ensures
            result == self.spec_as_register(),
    {
        match self {
            NumberSource::Register(register) => Some(*register),
            NumberSource::Constant(_) => None,
        }
    }

    pub fn as_constant(&self) -> (result: Option<Integer>)
        ensures
            match *self {
                NumberSource::Constant(value) => result == Some(value),
                NumberSource::Register(_) => result is None,
            },
    {
        match self {
            NumberSource::Constant(value) => Some(*value),
            NumberSource::Register(_) => None,
        }
    }
}

impl Comparison {
    /// One when the comparison holds, zero otherwise.
    pub open spec fn spec_evaluate(self, registers: Seq<Option<RegisterView>>) -> Result<
        Integer,
        InstructionEvaluationInterrupt,
    > {
        match self.values[0].spec_value(registers) {
            Err(interrupt) => Err(interrupt),
            Ok(lhs) => match self.values[1].spec_value(registers) {
                Err(interrupt) => Err(interrupt),
                Ok(rhs) => Ok(
                    if (spec_order_of(lhs as int, rhs as int) == self.ordering) != self.invert {
                        1
                    } else {
                        0
                    },
                ),
            },
        }
    }

    /// Returns whether the comparison holds (as one or zero), and the registers
    /// read for each side.
    pub fn evaluate(&self, registers: &RegisterSet) -> (result: Result<
        (Integer, [Option<u32>; 2]),
        InstructionEvaluationInterrupt,
    >)
        requires
            registers.wf(),
        ensures
            match result {
                Ok((value, read)) => {
                    &&& self.spec_evaluate(registers.spec_registers()) == Ok::<
                        _,
                        InstructionEvaluationInterrupt,
                    >(value)
                    &&& read@ == seq![
                        self.values[0].spec_as_register(),
                        self.values[1].spec_as_register(),
                    ]
                },
                Err(interrupt) => self.spec_evaluate(registers.spec_registers()) == Err::<
                    Integer,
                    _,
                >(interrupt),
            },
    {
        let (lhs, lhs_register) = match self.values[0].value(registers) {
            Ok(read) => read,
            Err(interrupt) => return Err(interrupt),
        };
        let (rhs, rhs_register) = match self.values[1].value(registers) {
            Ok(read) => read,
            Err(interrupt) => return Err(interrupt),
        };

        let holds = (order_of(lhs, rhs) == self.ordering) != self.invert;

        Ok((if holds { 1 } else { 0 }, [lhs_register, rhs_register]))
    }
}

/// Whether every register the number source names has a letter.
pub open spec fn spec_source_named(source: NumberSource) -> bool {
    source matches NumberSource::Register(register) ==> register < 26
}

/// How a number source is written: its register's letter, or its value.
pub open spec fn spec_source_text(source: NumberSource) -> Seq<char> {
    match source {
        NumberSource::Register(register) => seq![spec_name_of_register(register).unwrap()],
        NumberSource::Constant(value) => spec_decimal(value as int),
    }
}

/// The symbol of a comparison: `<`, `=`, `>`, or, inverted, `≥`, `≠`, `≤`.
pub open spec fn spec_comparison_symbol(ordering: Order, invert: bool) -> char {
    match (ordering, invert) {
        (Order::Less, false) => '<',
        (Order::Equal, false) => '=',
        (Order::Greater, false) => '>',
        (Order::Less, true) => '≥',
        (Order::Equal, true) => '≠',
        (Order::Greater, true) => '≤',
    }
}

/// How a comparison is written: its two sources around its symbol.
pub open spec fn spec_comparison_text(comparison: Comparison) -> Seq<char> {
    spec_source_text(comparison.values[0]) + seq![' ', spec_comparison_symbol(comparison.ordering, comparison.invert), ' ']
        + spec_source_text(comparison.values[1])
}

/// Whether every register the argument names has a letter.
pub open spec fn spec_argument_named(argument: Argument) -> bool {
    match argument {
        Argument::Number(source) => spec_source_named(source),
        Argument::Comparison(comparison) => spec_source_named(comparison.values[0]) && spec_source_named(
            comparison.values[1],
        ),
        _ => true,
    }
}

/// How an argument is written: `INDEX_` and the position it jumps to, its
/// number source, its comparison, or `_` when empty.
pub open spec fn spec_argument_text(argument: Argument) -> Seq<char> {
    match argument {
        Argument::Instruction(index) => "INDEX_"@ + spec_decimal(index as int),
        Argument::Number(source) => spec_source_text(source),
        Argument::Comparison(comparison) => spec_comparison_text(comparison),
        Argument::Empty => seq!['_'],
    }
}

impl NumberSource {
    /// Appends how the source is written.
    pub fn push_text(&self, out: &mut Vec<char>)
        requires
            spec_source_named(*self),
        ensures
            final(out)@ == old(out)@ + spec_source_text(*self),
    {
        match self {
            NumberSource::Register(register) => {
                out.push(name_of_register(*register).unwrap());
            },
            NumberSource::Constant(value) => push_decimal(out, *value as i128),
        }
    }
}

impl Comparison {
    /// Appends how the comparison is written.
    pub fn push_text(&self, out: &mut Vec<char>)
        requires
            spec_source_named(self.values[0]),
            spec_source_named(self.values[1]),
        ensures
            final(out)@ == old(out)@ + spec_comparison_text(*self),
    {
        let symbol = match (self.ordering, self.invert) {
            (Order::Less, false) => '<',
            (Order::Equal, false) => '=',
            (Order::Greater, false) => '>',
            (Order::Less, true) => '≥',
            (Order::Equal, true) => '≠',
            (Order::Greater, true) => '≤',
        };
        self.values[0].push_text(out);
        out.push(' ');
        out.push(symbol);
        out.push(' ');
        self.values[1].push_text(out);
        proof {
            assert(final(out)@ =~= old(out)@ + spec_comparison_text(*self));
        }
    }
}

impl Argument {
    /// Appends how the argument is written.
    pub fn push_text(&self, out: &mut Vec<char>)
        requires
            spec_argument_named(*self),
        ensures
            final(out)@ == old(out)@ + spec_argument_text(*self),
    {
        match self {
            Argument::Instruction(index) => {
                push_str(out, "INDEX_");
                push_decimal(out, *index as i128);
                proof {
                    assert(final(out)@ =~= old(out)@ + spec_argument_text(*self));
                }
            },
            Argument::Number(source) => source.push_text(out),
            Argument::Comparison(comparison) => comparison.push_text(out),
            Argument::Empty => out.push('_'),
        }
    }
}

/// A comparison evaluates to one when it holds and zero when it does not.
pub proof fn lemma_comparison_is_boolean(comparison: Comparison, registers: Seq<Option<RegisterView>>)
    ensures
        (comparison.spec_evaluate(registers) matches Ok(value) ==> value == 0 || value == 1),
{
}

/// Inverting a comparison turns its result around.
pub proof fn lemma_inverted_comparison(comparison: Comparison, registers: Seq<Option<RegisterView>>)
    ensures
        (comparison.spec_evaluate(registers) matches Ok(value) ==> (Comparison {
            invert: !comparison.invert,
            ..comparison
        }).spec_evaluate(registers) == Ok::<Integer, InstructionEvaluationInterrupt>((1 - value) as Integer)),
{
}

} // verus!
