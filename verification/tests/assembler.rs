use lib::defaults::default_computer;
use lib::simulation::argument::{Argument, Comparison, NumberSource, Order};
use lib::simulation::instruction::{ArgumentRequirement, InstructionKind};
use lib::simulation::program::{
    is_label_valid, ArgumentIntermediate, ParseArgumentError, Program, ProgramAssemblyError,
    ProgramAssemblyErrorKind,
};
use lib::simulation::text::{lines_of, parse_integer, tokens_of, ParsedInteger};

const COUNTING: &str = "; Store the numbers from 0 to 10, inclusive\nSET I 0\nLBL LOOP\nSET D I\nADD I 1 I\nJMP I < 10 LOOP\n";

fn chars(s: &str) -> Vec<char> {
    s.chars().collect()
}

fn assemble(source: &str) -> Result<Program, Vec<ProgramAssemblyError>> {
    let computer = default_computer(false);
    Program::assemble_from("test".to_owned(), source, &computer)
}

fn messages(errors: &[ProgramAssemblyError]) -> Vec<String> {
    errors.iter().map(|error| error.to_display_string()).collect()
}

#[test]
fn assembles_counting_example() {
    let program = assemble(COUNTING).unwrap();
    assert_eq!(program.name, "test");
    assert_eq!(program.instructions.len(), 4);
    assert!(matches!(program.instructions[0].kind, InstructionKind::SetRegister));
    assert_eq!(program.instructions[0].line, 1);
    assert!(matches!(
        program.instructions[0].arguments[0],
        Argument::Number(NumberSource::Register(8))
    ));
    assert!(matches!(
        program.instructions[0].arguments[1],
        Argument::Number(NumberSource::Constant(0))
    ));
    assert!(matches!(program.instructions[3].kind, InstructionKind::Jump));
    assert_eq!(program.instructions[3].line, 5);
    match program.instructions[3].arguments[0] {
        Argument::Comparison(Comparison { ordering, invert, values }) => {
            assert_eq!(ordering, Order::Less);
            assert!(!invert);
            assert!(matches!(values[0], NumberSource::Register(8)));
            assert!(matches!(values[1], NumberSource::Constant(10)));
        }
        _ => panic!("expected a comparison"),
    }
    assert!(matches!(program.instructions[3].arguments[1], Argument::Instruction(1)));
    assert_eq!(program.instructions[3].to_display_string(), "JMP I < 10 INDEX_1");
}

#[test]
fn empty_source_assembles_to_empty_program() {
    let program = assemble("").unwrap();
    assert!(program.instructions.is_empty());
    let program = assemble("; only a comment\n\n   \n").unwrap();
    assert!(program.instructions.is_empty());
}

#[test]
fn unknown_operation_is_reported() {
    let errors = assemble("FOO X\nSET X 1\nBAR").unwrap_err();
    assert_eq!(errors.len(), 2);
    assert_eq!(errors[0].lines, vec![0]);
    assert!(matches!(&errors[0].kind, ProgramAssemblyErrorKind::NoSuchOperation(name) if name == "FOO"));
    assert_eq!(errors[1].lines, vec![2]);
    assert_eq!(
        messages(&errors),
        vec![
            "Line 0: No such operation \"FOO\" on this machine".to_owned(),
            "Line 2: No such operation \"BAR\" on this machine".to_owned(),
        ]
    );
}

#[test]
fn duplicate_labels_are_reported_in_label_order() {
    let errors = assemble("LBL ZED\nLBL ALPHA\nSET X 1\nLBL ZED\nLBL ALPHA\nLBL ZED\nLBL ONCE").unwrap_err();
    assert_eq!(errors.len(), 2);
    assert!(matches!(&errors[0].kind, ProgramAssemblyErrorKind::DuplicateLabel(label) if label == "ALPHA"));
    assert_eq!(errors[0].lines, vec![1, 4]);
    assert!(matches!(&errors[1].kind, ProgramAssemblyErrorKind::DuplicateLabel(label) if label == "ZED"));
    assert_eq!(errors[1].lines, vec![0, 3, 5]);
    assert_eq!(errors[1].to_display_string(), "Lines 0, 3, 5: Duplicate label \"ZED\"");
}

#[test]
fn duplicate_report_is_the_same_on_every_assembly() {
    let source = "LBL B\nLBL A\nLBL B\nLBL A\n";
    let first = messages(&assemble(source).unwrap_err());
    let second = messages(&assemble(source).unwrap_err());
    assert_eq!(first, second);
    assert_eq!(first, vec!["Lines 1, 3: Duplicate label \"A\"".to_owned(), "Lines 0, 2: Duplicate label \"B\"".to_owned()]);
}

#[test]
fn line_errors_come_before_duplicate_labels() {
    let errors = assemble("LBL A\nLBL A\nNOP").unwrap_err();
    assert_eq!(messages(&errors), vec![
        "Line 2: No such operation \"NOP\" on this machine".to_owned(),
        "Lines 0, 1: Duplicate label \"A\"".to_owned(),
    ]);
}

#[test]
fn argument_count_errors() {
    let errors = assemble("SET X").unwrap_err();
    assert!(matches!(errors[0].kind, ProgramAssemblyErrorKind::TooFewArguments { got: 1, minimum: 2 }));
    assert_eq!(errors[0].to_display_string(), "Line 0: Not enough arguments (got 1, minimum 2)");
    let errors = assemble("SET X 1 2").unwrap_err();
    assert!(matches!(errors[0].kind, ProgramAssemblyErrorKind::TooManyArguments { got: 3, maximum: 2 }));
    assert_eq!(errors[0].to_display_string(), "Line 0: Too many arguments (got 3, maximum 2)");
    let errors = assemble("LBL").unwrap_err();
    assert!(matches!(errors[0].kind, ProgramAssemblyErrorKind::TooFewArguments { got: 0, minimum: 1 }));
}

#[test]
fn unexpected_argument_is_reported() {
    let errors = assemble("SET 5 X").unwrap_err();
    assert!(matches!(
        &errors[0].kind,
        ProgramAssemblyErrorKind::UnexpectedArgument { expected: ArgumentRequirement::RegisterWriteOnly, .. }
    ));
    assert_eq!(errors[0].to_display_string(), "Line 0: Got \"5\", expected a register");
    let errors = assemble("LBL X < 3").unwrap_err();
    assert_eq!(errors[0].to_display_string(), "Line 0: Got \"X < 3\", expected a label");
}

#[test]
fn constant_out_of_range_is_reported() {
    assert!(assemble("SET X 9999").is_ok());
    let errors = assemble("SET X 10000").unwrap_err();
    assert!(matches!(
        &errors[0].kind,
        ProgramAssemblyErrorKind::InvalidArgument(ParseArgumentError::ConstantTooBig { got, maximum: 9999 }) if got == "10000"
    ));
    assert_eq!(errors[0].to_display_string(), "Line 0: \"10000\" is too big for this machine (maximum: 9999)");
    let errors = assemble("SET X -10000").unwrap_err();
    assert_eq!(errors[0].to_display_string(), "Line 0: \"-10000\" is too small for this machine (minimum: -9999)");
    let errors = assemble("SET X 99999999999").unwrap_err();
    assert!(matches!(
        &errors[0].kind,
        ProgramAssemblyErrorKind::InvalidArgument(ParseArgumentError::ConstantTooBig { maximum: 9999, .. })
    ));
}

#[test]
fn missing_and_invalid_labels_are_reported() {
    let errors = assemble("JMP NOWHERE").unwrap_err();
    assert_eq!(errors[0].to_display_string(), "Line 0: No such label \"NOWHERE\"");
    let errors = assemble("LBL BAD!").unwrap_err();
    assert_eq!(
        errors[0].to_display_string(),
        "Line 0: Invalid label \"BAD!\", must contain only _, -, letters, and numbers"
    );
}

#[test]
fn incomplete_comparison_is_reported() {
    let errors = assemble("JMP X <").unwrap_err();
    assert!(matches!(
        errors[0].kind,
        ProgramAssemblyErrorKind::InvalidArgument(ParseArgumentError::IncompleteComparison)
    ));
    assert_eq!(
        errors[0].to_display_string(),
        "Line 0: A constant or register must follow a comparison operator"
    );
}

#[test]
fn unsupported_register_is_reported() {
    let errors = assemble("SET Q 1\nADD W Q Q").unwrap_err();
    assert_eq!(messages(&errors), vec![
        "Line 0: \"Q\" register not supported on this machine".to_owned(),
        "Line 1: \"W\" register not supported on this machine".to_owned(),
        "Line 1: \"Q\" register not supported on this machine".to_owned(),
        "Line 1: \"Q\" register not supported on this machine".to_owned(),
    ]);
}

#[test]
fn optional_argument_may_be_left_out() {
    let program = assemble("LBL TOP\nJMP TOP\nCLK X\nCLK X 2").unwrap();
    assert!(matches!(program.instructions[0].arguments[0], Argument::Empty));
    assert!(matches!(program.instructions[0].arguments[1], Argument::Instruction(0)));
    assert!(matches!(program.instructions[1].arguments[1], Argument::Empty));
    assert!(matches!(program.instructions[2].arguments[1], Argument::Number(NumberSource::Constant(2))));
}

#[test]
fn comparison_operators_are_read() {
    let cases = [("<", Order::Less, false), ("=", Order::Equal, false), (">", Order::Greater, false),
        (">=", Order::Less, true), ("≥", Order::Less, true), ("!=", Order::Equal, true), ("/=", Order::Equal, true),
        ("≠", Order::Equal, true), ("<=", Order::Greater, true), ("≤", Order::Greater, true)];
    for (symbol, order, inverted) in cases {
        let source = format!("CMP X {symbol} 3 Y");
        let program = assemble(&source).unwrap();
        match program.instructions[0].arguments[0] {
            Argument::Comparison(comparison) => {
                assert_eq!(comparison.ordering, order);
                assert_eq!(comparison.invert, inverted);
            }
            _ => panic!("expected a comparison"),
        }
    }
}

#[test]
fn argument_text_round_trips_through_display() {
    let argument = ArgumentIntermediate::Comparison {
        ordering: Order::Greater,
        invert: true,
        values: [chars("X"), chars("5")],
    };
    assert_eq!(argument.to_display_string(), "X ≤ 5");
    assert_eq!(argument.to_owned().to_display_string(), "X ≤ 5");
    assert_eq!(ArgumentIntermediate::Token(chars("LOOP")).to_display_string(), "LOOP");
}

#[test]
fn argument_readings() {
    let token = ArgumentIntermediate::Token(chars("12"));
    assert_eq!(token.as_constant(3).unwrap(), 12);
    assert!(matches!(token.as_register(), Err(ParseArgumentError::IncorrectType)));
    assert!(matches!(token.as_number_source(3), Ok(NumberSource::Constant(12))));
    assert!(matches!(token.as_comparison(3), Err(ParseArgumentError::IncorrectType)));
    let register = ArgumentIntermediate::Token(chars("Z"));
    assert_eq!(register.as_register().unwrap(), 25);
    assert!(matches!(register.as_value(3), Ok(Argument::Number(NumberSource::Register(25)))));
    assert_eq!(register.as_label().unwrap(), chars("Z"));
    assert!(matches!(
        ArgumentIntermediate::Token(chars("a-b")).as_value(3),
        Err(ParseArgumentError::IncorrectType)
    ));
}

#[test]
fn labels_allow_only_some_characters() {
    assert!(is_label_valid(&chars("LOOP_2-a")));
    assert!(!is_label_valid(&chars("LOOP!")));
    assert!(!is_label_valid(&chars("É")));
    assert!(is_label_valid(&chars("")));
}

#[test]
fn integers_parse_as_rust_does() {
    for text in ["0", "7", "-7", "+7", "2147483647", "-2147483648", "007"] {
        let expected: i32 = text.parse().unwrap();
        assert!(matches!(parse_integer(&chars(text)), ParsedInteger::Value(v) if v == expected));
    }
    assert!(matches!(parse_integer(&chars("2147483648")), ParsedInteger::PositiveOverflow));
    assert!(matches!(parse_integer(&chars("-2147483649")), ParsedInteger::NegativeOverflow));
    assert!(matches!(parse_integer(&chars("99999999999x")), ParsedInteger::PositiveOverflow));
    assert!(matches!(parse_integer(&chars("9x99999999999")), ParsedInteger::Invalid));
    assert!(matches!(parse_integer(&chars("")), ParsedInteger::Invalid));
    assert!(matches!(parse_integer(&chars("-")), ParsedInteger::Invalid));
    assert!(matches!(parse_integer(&chars("+-1")), ParsedInteger::Invalid));
}

#[test]
fn lines_and_words_split_as_rust_does() {
    for text in ["", "a", "a\n", "a\n\nb", "\n", "x\r\ny\n", "  SET   X 1  \t"] {
        let lines: Vec<String> = lines_of(&chars(text)).into_iter().map(|l| l.into_iter().collect()).collect();
        let expected: Vec<String> = text.split('\n').map(|l| l.to_owned()).collect();
        let expected = if text.ends_with('\n') || text.is_empty() { expected[..expected.len() - 1].to_vec() } else { expected };
        assert_eq!(lines, expected);
        let words: Vec<String> = tokens_of(&chars(text)).into_iter().map(|w| w.into_iter().collect()).collect();
        let expected: Vec<String> = text.split_whitespace().map(|w| w.to_owned()).collect();
        assert_eq!(words, expected);
    }
}

#[test]
fn assembled_lines_increase_and_jumps_stay_in_the_program() {
    let computer = default_computer(false);
    let source = "LBL START\nSET X 1\n\n; comment\nJMP X < 3 START\nADD X 1 X\nJMP FINISH\nLBL FINISH";
    let program = Program::assemble_from("jumps".to_owned(), source, &computer).unwrap();
    let count = program.instructions.len() as u32;
    assert_eq!(count, 4);
    for pair in program.instructions.windows(2) {
        assert!(pair[0].line < pair[1].line);
    }
    let mut targets = Vec::new();
    for instruction in &program.instructions {
        for argument in instruction.arguments.iter() {
            if let Argument::Instruction(target) = argument {
                assert!(*target <= count);
                targets.push(*target);
            }
        }
    }
    assert_eq!(targets, vec![0, 4]);
}
