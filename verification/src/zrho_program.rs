//! A first model of zρ programs: instructions whose arguments are already
//! typed, built from an operation's name and its arguments.
use vstd::prelude::*;

use crate::simulation::integer::{DigitInteger, Integer};
use crate::simulation::text::{chars_equal, chars_of};

verus! {

pub struct ZRhoComputer {}

pub struct ZRhoProgram {
    pub instructions: Vec<InstructionEntry>,
}

pub struct RegisterPrototype {
    pub name: char,
    pub read_delay: u8,
    pub write_delay: u8,
    pub linked_to: Option<usize>,
    pub value: DigitInteger,
}

pub struct InstructionEntry {
    pub source_line: usize,
    pub instruction: Instruction,
}

pub enum Instruction {
    SetRegister(Register, Value),
    Add(Value, Value, Register),
    Sub(Value, Value, Register),
    Mul(Value, Value, Register),
    Div(Value, Value, Register),
    Mod(Value, Value, Register),
    Cmp(Condition, Register),
    Tcp(Condition, Register),
    Fcp(Condition, Register),
    Lbl(Label),
    Jmp(Label),
    JmpCond(Condition, Label),
    Ljp(Condition, Label),
    Ujp(Condition, Label),
}

#[derive(Clone, Copy, Debug)]
pub struct Constant(pub DigitInteger);

#[derive(Clone, Copy, Debug)]
pub struct Register(pub u32);

#[derive(Clone, Copy, Debug)]
pub enum Value {
    Constant(Constant),
    Register(Register),
}

#[derive(Clone, Copy, Debug)]
pub enum Condition {
    Direct(Value),
    Evaluate(Value, Value, ConditionKind),
}

#[derive(Clone, Copy, Debug)]
pub struct Label(pub u32);

#[derive(Clone, Copy, Debug)]
pub enum ConditionKind {
    Equal,
    NotEqual,
    Greater,
    GreaterOrEqual,
    Less,
    LessOrEqual,
}

#[derive(Clone, Copy, Debug)]
pub enum Argument {
    Constant(Constant),
    Register(Register),
    Condition(Condition),
    Label(Label),
}

/// How many arguments an instruction takes.
pub open spec fn spec_num_arguments(instruction: Instruction) -> nat {
    match instruction {
        Instruction::SetRegister(..) => 2,
        Instruction::Add(..) | Instruction::Sub(..) | Instruction::Mul(..) | Instruction::Div(..)
        | Instruction::Mod(..) => 3,
        Instruction::Cmp(..) | Instruction::Tcp(..) | Instruction::Fcp(..) => 2,
        Instruction::Lbl(..) | Instruction::Jmp(..) => 1,
        Instruction::JmpCond(..) | Instruction::Ljp(..) | Instruction::Ujp(..) => 2,
    }
}

/// The register that argument `i` names, if there is such an argument and it
/// is a register.
pub open spec fn spec_register_at(arguments: Seq<Argument>, i: int) -> Option<Register> {
    if 0 <= i < arguments.len() {
        arguments[i].spec_as_register()
    } else {
        None
    }
}

/// The value that argument `i` gives, if there is such an argument and it is a
/// constant or a register.
pub open spec fn spec_value_at(arguments: Seq<Argument>, i: int) -> Option<Value> {
    if 0 <= i < arguments.len() {
        arguments[i].spec_as_value()
    } else {
        None
    }
}

/// The condition that argument `i` is, if there is such an argument and it is
/// a condition.
pub open spec fn spec_condition_at(arguments: Seq<Argument>, i: int) -> Option<Condition> {
    if 0 <= i < arguments.len() {
        arguments[i].spec_as_condition()
    } else {
        None
    }
}

/// The label that argument `i` is, if there is such an argument and it is a
/// label.
pub open spec fn spec_label_at(arguments: Seq<Argument>, i: int) -> Option<Label> {
    if 0 <= i < arguments.len() {
        arguments[i].spec_as_label()
    } else {
        None
    }
}

/// The operands of an arithmetic instruction: two values and the register
/// that takes the result.
pub open spec fn spec_arithmetic_operands(arguments: Seq<Argument>) -> Option<(Value, Value, Register)> {
    match (spec_value_at(arguments, 0), spec_value_at(arguments, 1), spec_register_at(arguments, 2)) {
        (Some(lhs), Some(rhs), Some(target)) => Some((lhs, rhs, target)),
        _ => None,
    }
}

/// The operands of an instruction that writes a condition to a register.
pub open spec fn spec_condition_operands(arguments: Seq<Argument>) -> Option<(Condition, Register)> {
    match (spec_condition_at(arguments, 0), spec_register_at(arguments, 1)) {
        (Some(condition), Some(target)) => Some((condition, target)),
        _ => None,
    }
}

/// The operands of a conditional jump.
pub open spec fn spec_jump_operands(arguments: Seq<Argument>) -> Option<(Condition, Label)> {
    match (spec_condition_at(arguments, 0), spec_label_at(arguments, 1)) {
        (Some(condition), Some(label)) => Some((condition, label)),
        _ => None,
    }
}

/// The instruction that operation `name` makes of the first arguments it
/// reads, before their count is checked. `JMP` with two or more arguments is a
/// conditional jump.
pub open spec fn spec_read_instruction(name: Seq<char>, arguments: Seq<Argument>) -> Option<Instruction> {
    if name == "SET"@ {
        match (spec_register_at(arguments, 0), spec_value_at(arguments, 1)) {
            (Some(target), Some(value)) => Some(Instruction::SetRegister(target, value)),
            _ => None,
        }
    } else if name == "ADD"@ || name == "SUB"@ || name == "MUL"@ || name == "DIV"@ || name == "REM"@ {
        match spec_arithmetic_operands(arguments) {
            Some((lhs, rhs, target)) => Some(
                if name == "ADD"@ {
                    Instruction::Add(lhs, rhs, target)
                } else if name == "SUB"@ {
                    Instruction::Sub(lhs, rhs, target)
                } else if name == "MUL"@ {
                    Instruction::Mul(lhs, rhs, target)
                } else if name == "DIV"@ {
                    Instruction::Div(lhs, rhs, target)
                } else {
                    Instruction::Mod(lhs, rhs, target)
                },
            ),
            None => None,
        }
    } else if name == "CMP"@ || name == "TCP"@ || name == "FCP"@ {
        match spec_condition_operands(arguments) {
            Some((condition, target)) => Some(
                if name == "CMP"@ {
                    Instruction::Cmp(condition, target)
                } else if name == "TCP"@ {
                    Instruction::Tcp(condition, target)
                } else {
                    Instruction::Fcp(condition, target)
                },
            ),
            None => None,
        }
    } else if name == "LBL"@ {
        match spec_label_at(arguments, 0) {
            Some(label) => Some(Instruction::Lbl(label)),
            None => None,
        }
    } else if name == "JMP"@ {
        if arguments.len() == 1 {
            match spec_label_at(arguments, 0) {
                Some(label) => Some(Instruction::Jmp(label)),
                None => None,
            }
        } else if arguments.len() >= 2 {
            match spec_jump_operands(arguments) {
                Some((condition, label)) => Some(Instruction::JmpCond(condition, label)),
                None => None,
            }
        } else {
            None
        }
    } else if name == "LJP"@ || name == "UJP"@ {
        match spec_jump_operands(arguments) {
            Some((condition, label)) => Some(
                if name == "LJP"@ {
                    Instruction::Ljp(condition, label)
                } else {
                    Instruction::Ujp(condition, label)
                },
            ),
            None => None,
        }
    } else {
        None
    }
}

/// The name of the operation an instruction performs.
pub open spec fn spec_operation_name(instruction: Instruction) -> Seq<char> {
    match instruction {
        Instruction::SetRegister(..) => "SET"@,
        Instruction::Add(..) => "ADD"@,
        Instruction::Sub(..) => "SUB"@,
        Instruction::Mul(..) => "MUL"@,
        Instruction::Div(..) => "DIV"@,
        Instruction::Mod(..) => "REM"@,
        Instruction::Cmp(..) => "CMP"@,
        Instruction::Tcp(..) => "TCP"@,
        Instruction::Fcp(..) => "FCP"@,
        Instruction::Lbl(..) => "LBL"@,
        Instruction::Jmp(..) | Instruction::JmpCond(..) => "JMP"@,
        Instruction::Ljp(..) => "LJP"@,
        Instruction::Ujp(..) => "UJP"@,
    }
}

/// Reading operation `name` makes an instruction of that operation and no
/// other, whatever its arguments.
pub proof fn lemma_read_keeps_operation(name: Seq<char>, arguments: Seq<Argument>)
    ensures
        spec_read_instruction(name, arguments) matches Some(instruction) ==> spec_operation_name(instruction) == name,
{
}

/// Whether `name`'s characters are those of `expected`.
fn is_named(name: &[char], expected: &str) -> (result: bool)
    ensures
        result == (name@ == expected@),
{
    let expected = chars_of(expected);
    chars_equal(name, expected.as_slice())
}

impl Instruction {
    /// The instruction that operation `name` makes of `arguments`: `None` for
    /// an unknown operation, arguments of the wrong kinds, or the wrong number
    /// of them.
    pub fn new(name: &str, arguments: Vec<Argument>) -> (result: Option<Self>)
        ensures
            result == match spec_read_instruction(name@, arguments@) {
                Some(instruction) => if arguments@.len() == spec_num_arguments(instruction) {
                    Some(instruction)
                } else {
                    None
                },
                None => None,
            },
            result matches Some(instruction) ==> spec_operation_name(instruction) == name@,
    {
        proof {
            lemma_read_keeps_operation(name@, arguments@);
        }
        let name = chars_of(name);
        let name = name.as_slice();
        let instruction = if is_named(name, "SET") {
            match (register_at(&arguments, 0), value_at(&arguments, 1)) {
                (Some(target), Some(value)) => Instruction::SetRegister(target, value),
                _ => return None,
            }
        } else if is_named(name, "ADD") || is_named(name, "SUB") || is_named(name, "MUL") || is_named(name, "DIV")
            || is_named(name, "REM") {
            let (lhs, rhs, target) = match (value_at(&arguments, 0), value_at(&arguments, 1), register_at(&arguments, 2)) {
                (Some(lhs), Some(rhs), Some(target)) => (lhs, rhs, target),
                _ => return None,
            };
            if is_named(name, "ADD") {
                Instruction::Add(lhs, rhs, target)
            } else if is_named(name, "SUB") {
                Instruction::Sub(lhs, rhs, target)
            } else if is_named(name, "MUL") {
                Instruction::Mul(lhs, rhs, target)
            } else if is_named(name, "DIV") {
                Instruction::Div(lhs, rhs, target)
            } else {
                Instruction::Mod(lhs, rhs, target)
            }
        } else if is_named(name, "CMP") || is_named(name, "TCP") || is_named(name, "FCP") {
            let (condition, target) = match (condition_at(&arguments, 0), register_at(&arguments, 1)) {
                (Some(condition), Some(target)) => (condition, target),
                _ => return None,
            };
            if is_named(name, "CMP") {
                Instruction::Cmp(condition, target)
            } else if is_named(name, "TCP") {
                Instruction::Tcp(condition, target)
            } else {
                Instruction::Fcp(condition, target)
            }
        } else if is_named(name, "LBL") {
            match label_at(&arguments, 0) {
                Some(label) => Instruction::Lbl(label),
                None => return None,
            }
        } else if is_named(name, "JMP") {
            if arguments.len() == 1 {
                match label_at(&arguments, 0) {
                    Some(label) => Instruction::Jmp(label),
                    None => return None,
                }
            } else if arguments.len() >= 2 {
                match (condition_at(&arguments, 0), label_at(&arguments, 1)) {
                    (Some(condition), Some(label)) => Instruction::JmpCond(condition, label),
                    _ => return None,
                }
            } else {
                return None;
            }
        } else if is_named(name, "LJP") || is_named(name, "UJP") {
            let (condition, label) = match (condition_at(&arguments, 0), label_at(&arguments, 1)) {
                (Some(condition), Some(label)) => (condition, label),
                _ => return None,
            };
            if is_named(name, "LJP") {
                Instruction::Ljp(condition, label)
            } else {
                Instruction::Ujp(condition, label)
            }
        } else {
            return None;
        };

        if arguments.len() != instruction.num_arguments() {
            return None;
        }

        Some(instruction)
    }

    /// How many arguments the instruction takes.
    pub fn num_arguments(&self) -> (result: usize)
        ensures
            result == spec_num_arguments(*self),
    {
        match self {
            Instruction::SetRegister(..) => 2,
            Instruction::Add(..) => 3,
            Instruction::Sub(..) => 3,
            Instruction::Mul(..) => 3,
            Instruction::Div(..) => 3,
            Instruction::Mod(..) => 3,
            Instruction::Cmp(..) => 2,
            Instruction::Tcp(..) => 2,
            Instruction::Fcp(..) => 2,
            Instruction::Lbl(..) => 1,
            Instruction::Jmp(..) => 1,
            Instruction::JmpCond(..) => 2,
            Instruction::Ljp(..) => 2,
            Instruction::Ujp(..) => 2,
        }
    }
}

fn register_at(arguments: &Vec<Argument>, i: usize) -> (result: Option<Register>)
    ensures
        result == spec_register_at(arguments@, i as int),
{
    if i < arguments.len() {
        arguments[i].as_register()
    } else {
        None
    }
}

fn value_at(arguments: &Vec<Argument>, i: usize) -> (result: Option<Value>)
    ensures
        result == spec_value_at(arguments@, i as int),
{
    if i < arguments.len() {
        arguments[i].as_value()
    } else {
        None
    }
}

fn condition_at(arguments: &Vec<Argument>, i: usize) -> (result: Option<Condition>)
    ensures
        result == spec_condition_at(arguments@, i as int),
{
    if i < arguments.len() {
        arguments[i].as_condition()
    } else {
        None
    }
}

fn label_at(arguments: &Vec<Argument>, i: usize) -> (result: Option<Label>)
    ensures
        result == spec_label_at(arguments@, i as int),
{
    if i < arguments.len() {
        arguments[i].as_label()
    } else {
        None
    }
}

impl ConditionKind {
    /// Whether `lhs` and `rhs` stand in the relation.
    pub open spec fn spec_holds(self, lhs: int, rhs: int) -> bool {
        match self {
            ConditionKind::Equal => lhs == rhs,
            ConditionKind::NotEqual => lhs != rhs,
            ConditionKind::Greater => lhs > rhs,
            ConditionKind::GreaterOrEqual => lhs >= rhs,
            ConditionKind::Less => lhs < rhs,
            ConditionKind::LessOrEqual => lhs <= rhs,
        }
    }

    /// Whether `lhs` and `rhs` stand in the relation.
    pub fn evaluate(self, lhs: Integer, rhs: Integer) -> (result: bool)
        ensures
            result == self.spec_holds(lhs as int, rhs as int),
    {
        match self {
            ConditionKind::Equal => lhs == rhs,
            ConditionKind::NotEqual => lhs < rhs || lhs > rhs,
            ConditionKind::Greater => lhs > rhs,
            ConditionKind::GreaterOrEqual => lhs > rhs || lhs == rhs,
            ConditionKind::Less => lhs < rhs,
            ConditionKind::LessOrEqual => lhs < rhs || lhs == rhs,
        }
    }
}

/// The conditions are the orderings of two integers: `Equal` and `Less` are
/// equality and the strict order, each other condition is made of them (a
/// non-strict order allows both, `Greater` is `Less` the other way round, and
/// `NotEqual` denies `Equal`).
pub proof fn lemma_conditions_order(lhs: int, rhs: int)
    ensures
        ConditionKind::Equal.spec_holds(lhs, rhs) == (lhs == rhs),
        ConditionKind::Less.spec_holds(lhs, rhs) == (lhs < rhs),
        ConditionKind::Greater.spec_holds(lhs, rhs) == ConditionKind::Less.spec_holds(rhs, lhs),
        ConditionKind::LessOrEqual.spec_holds(lhs, rhs) == (ConditionKind::Less.spec_holds(lhs, rhs)
            || ConditionKind::Equal.spec_holds(lhs, rhs)),
        ConditionKind::GreaterOrEqual.spec_holds(lhs, rhs) == (ConditionKind::Greater.spec_holds(lhs, rhs)
            || ConditionKind::Equal.spec_holds(lhs, rhs)),
        ConditionKind::NotEqual.spec_holds(lhs, rhs) == !ConditionKind::Equal.spec_holds(lhs, rhs),
        ConditionKind::LessOrEqual.spec_holds(lhs, lhs),
        ConditionKind::GreaterOrEqual.spec_holds(lhs, lhs),
{
}

impl Argument {
    pub open spec fn spec_as_constant(self) -> Option<Constant> {
        match self {
            Argument::Constant(constant) => Some(constant),
            _ => None,
        }
    }

    pub open spec fn spec_as_register(self) -> Option<Register> {
        match self {
            Argument::Register(register) => Some(register),
            _ => None,
        }
    }

    /// A constant or a register, as a value.
    pub open spec fn spec_as_value(self) -> Option<Value> {
        match self {
            Argument::Constant(constant) => Some(Value::Constant(constant)),
            Argument::Register(register) => Some(Value::Register(register)),
            _ => None,
        }
    }

    pub open spec fn spec_as_condition(self) -> Option<Condition> {
        match self {
            Argument::Condition(condition) => Some(condition),
            _ => None,
        }
    }

    pub open spec fn spec_as_label(self) -> Option<Label> {
        match self {
            Argument::Label(label) => Some(label),
            _ => None,
        }
    }

    pub fn as_constant(&self) -> (result: Option<Constant>)
        ensures
            result == self.spec_as_constant(),
    {
        if let Argument::Constant(value) = self {
            Some(*value)
        } else {
            None
        }
    }

    pub fn as_register(&self) -> (result: Option<Register>)
        ensures
            result == self.spec_as_register(),
    {
        if let Argument::Register(value) = self {
            Some(*value)
        } else {
            None
        }
    }

    pub fn as_value(&self) -> (result: Option<Value>)
        ensures
            result == self.spec_as_value(),
    {
        if let Argument::Constant(value) = self {
            Some(Value::Constant(*value))
        } else if let Argument::Register(value) = self {
            Some(Value::Register(*value))
        } else {
            None
        }
    }

    pub fn as_condition(&self) -> (result: Option<Condition>)
        ensures
            result == self.spec_as_condition(),
    {
        if let Argument::Condition(value) = self {
            Some(*value)
        } else {
            None
        }
    }

    pub fn as_label(&self) -> (result: Option<Label>)
        ensures
            result == self.spec_as_label(),
    {
        if let Argument::Label(value) = self {
            Some(*value)
        } else {
            None
        }
    }
}

} // verus!
