use lib::simulation::integer::{
    format_overflow_error, format_underflow_error, AssignIntegerError, DigitInteger,
};
use lib::simulation::instruction::{default_instructions, ArgumentRequirement, InstructionKind};

fn chars(s: &str) -> Vec<char> {
    s.chars().collect()
}

#[test]
fn digit_integer_ranges() {
    assert_eq!(DigitInteger::range_of_digits(0), 9);
    assert_eq!(DigitInteger::range_of_digits(2), 999);
    assert_eq!(DigitInteger::range_of_digits(8), 999_999_999);
    let value = DigitInteger::new(-12, 2).unwrap();
    assert_eq!(value.get(), -12);
    assert_eq!(value.get_bigger(), -12i64);
    assert_eq!(value.maximum(), 999);
    assert_eq!(value.minimum(), -999);
    assert_eq!(value.num_digits(), 3);
}

#[test]
fn digit_integer_rejects_out_of_range() {
    assert_eq!(
        DigitInteger::new(1000, 2).unwrap_err(),
        AssignIntegerError::ValueTooBig { got: 1000, maximum: 999 }
    );
    assert_eq!(
        DigitInteger::new(-10, 0).unwrap_err(),
        AssignIntegerError::ValueTooSmall { got: -10, minimum: -9 }
    );
    assert_eq!(DigitInteger::new(0, 9).unwrap_err(), AssignIntegerError::NumDigitsNotSupported);
}

#[test]
fn try_set_keeps_value_on_error() {
    let mut value = DigitInteger::new(5, 1).unwrap();
    assert!(value.try_set(-99).is_ok());
    assert_eq!(value.get(), -99);
    assert!(value.try_set(100).is_err());
    assert_eq!(value.get(), -99);
    assert!(value.is_valid(99).is_ok());
    assert_eq!(value.is_valid(-100).unwrap_err(), AssignIntegerError::ValueTooSmall { got: -100, minimum: -99 });
}

#[test]
fn digit_integer_text() {
    let value = DigitInteger::new(-5, 2).unwrap();
    assert_eq!(value.to_display_string(), "-5");
    assert_eq!(value.to_debug_string(), "-005");
    let value = DigitInteger::new(123, 2).unwrap();
    assert_eq!(value.to_debug_string(), "123");
    assert_eq!(DigitInteger::dummy().to_debug_string(), "0");
}

#[test]
fn error_messages() {
    assert_eq!(
        format_overflow_error(&chars("1000"), 999),
        "\"1000\" is too big for this machine (maximum: 999)"
    );
    assert_eq!(
        format_underflow_error(&chars("-1000"), -999),
        "\"-1000\" is too small for this machine (minimum: -999)"
    );
    assert_eq!(
        AssignIntegerError::ValueMuchTooBig { got: 5_000_000_000, maximum: 9 }.to_display_string(),
        "\"5000000000\" is too big for this machine (maximum: 9)"
    );
    assert_eq!(AssignIntegerError::NumDigitsNotSupported.to_display_string(), "Number of digits not supported");
}

#[test]
fn default_instruction_table() {
    let table = default_instructions();
    let set = table.get(InstructionKind::SetRegister);
    assert_eq!(set.name, "SET");
    assert_eq!(set.minimum_arguments(), 2);
    assert_eq!(set.maximum_arguments(), 2);
    let jump = table.instruction_with_name("JMP").unwrap();
    assert!(matches!(jump.kind, InstructionKind::Jump));
    assert_eq!(jump.minimum_arguments(), 1);
    assert_eq!(jump.maximum_arguments(), 2);
    assert!(table.instruction_with_name("").is_none());
    assert!(table.instruction_with_name("set").is_none());
    assert_eq!(ArgumentRequirement::AnyValueOrEmpty.to_display_string(), "a constant, register, comparison, or nothing");
    assert!(ArgumentRequirement::ConstantOrEmpty.allows_empty());
    assert!(!ArgumentRequirement::Register.allows_empty());
}

#[test]
fn with_instruction_replaces_one_entry() {
    let table = default_instructions();
    let changed = table.with_instruction(InstructionKind::Add, |mut properties| {
        properties.base_time = 7;
        properties
    });
    assert_eq!(changed.get(InstructionKind::Add).base_time, 7);
    assert_eq!(changed.get(InstructionKind::Subtract).base_time, table.get(InstructionKind::Subtract).base_time);
}
