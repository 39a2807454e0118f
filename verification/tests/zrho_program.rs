use lib::simulation::argument::Argument as SimulationArgument;
use lib::simulation::integer::DigitInteger;
use lib::zrho_program::{
    Argument, Condition, ConditionKind, Constant, Instruction, Label, Register, Value,
};

fn constant(value: i32) -> Argument {
    Argument::Constant(Constant(DigitInteger::new(value, 3).unwrap()))
}

fn register(index: u32) -> Argument {
    Argument::Register(Register(index))
}

fn condition() -> Argument {
    Argument::Condition(Condition::Evaluate(
        Value::Register(Register(0)),
        Value::Register(Register(1)),
        ConditionKind::Less,
    ))
}

#[test]
fn set_takes_a_register_and_a_value() {
    let instruction = Instruction::new("SET", vec![register(2), constant(5)]);
    assert!(matches!(instruction, Some(Instruction::SetRegister(Register(2), Value::Constant(_)))));
    assert!(Instruction::new("SET", vec![constant(5), register(2)]).is_none());
    assert!(Instruction::new("SET", vec![register(2)]).is_none());
    assert!(Instruction::new("SET", vec![register(2), constant(5), constant(6)]).is_none());
}

#[test]
fn arithmetic_takes_two_values_and_a_register() {
    let instruction = Instruction::new("MUL", vec![register(0), constant(3), register(1)]);
    assert!(matches!(instruction, Some(Instruction::Mul(Value::Register(Register(0)), Value::Constant(_), Register(1)))));
    assert!(matches!(
        Instruction::new("REM", vec![constant(7), constant(3), register(1)]),
        Some(Instruction::Mod(..))
    ));
    assert!(Instruction::new("ADD", vec![register(0), constant(3), constant(1)]).is_none());
}

#[test]
fn comparisons_write_to_a_register() {
    assert!(matches!(Instruction::new("CMP", vec![condition(), register(4)]), Some(Instruction::Cmp(_, Register(4)))));
    assert!(matches!(Instruction::new("TCP", vec![condition(), register(4)]), Some(Instruction::Tcp(_, Register(4)))));
    assert!(matches!(Instruction::new("FCP", vec![condition(), register(4)]), Some(Instruction::Fcp(_, Register(4)))));
}

#[test]
fn jumps_take_a_label_and_maybe_a_condition() {
    let label = Argument::Label(Label(3));
    assert!(matches!(Instruction::new("JMP", vec![label]), Some(Instruction::Jmp(Label(3)))));
    assert!(matches!(Instruction::new("JMP", vec![condition(), label]), Some(Instruction::JmpCond(_, Label(3)))));
    assert!(Instruction::new("JMP", vec![]).is_none());
    assert!(Instruction::new("JMP", vec![condition(), label, label]).is_none());
    assert!(matches!(Instruction::new("LJP", vec![condition(), label]), Some(Instruction::Ljp(..))));
    assert!(matches!(Instruction::new("UJP", vec![condition(), label]), Some(Instruction::Ujp(..))));
    assert!(matches!(Instruction::new("LBL", vec![label]), Some(Instruction::Lbl(Label(3)))));
    assert!(Instruction::new("NOP", vec![]).is_none());
}

#[test]
fn argument_counts() {
    let instruction = Instruction::new("ADD", vec![constant(1), constant(2), register(0)]).unwrap();
    assert_eq!(instruction.num_arguments(), 3);
    assert_eq!(Instruction::Lbl(Label(0)).num_arguments(), 1);
    assert_eq!(Instruction::Ujp(Condition::Direct(Value::Register(Register(0))), Label(0)).num_arguments(), 2);
}

#[test]
fn condition_kinds_compare() {
    assert!(ConditionKind::Equal.evaluate(3, 3));
    assert!(!ConditionKind::NotEqual.evaluate(3, 3));
    assert!(ConditionKind::Greater.evaluate(4, 3));
    assert!(ConditionKind::GreaterOrEqual.evaluate(3, 3));
    assert!(ConditionKind::Less.evaluate(-4, 3));
    assert!(!ConditionKind::LessOrEqual.evaluate(4, 3));
}

#[test]
fn arguments_convert_only_to_their_kind() {
    assert!(constant(1).as_constant().is_some());
    assert!(constant(1).as_register().is_none());
    assert!(matches!(register(1).as_value(), Some(Value::Register(Register(1)))));
    assert!(matches!(constant(1).as_value(), Some(Value::Constant(_))));
    assert!(condition().as_value().is_none());
    assert!(condition().as_condition().is_some());
    assert!(Argument::Label(Label(1)).as_label().is_some());
}

#[test]
fn an_argument_is_specified_unless_empty() {
    assert!(!SimulationArgument::Empty.is_specified());
    assert!(SimulationArgument::Instruction(0).is_specified());
    assert!(SimulationArgument::Empty.is_empty());
}
