use lib::defaults::default_computer;
use lib::simulation::argument::{Argument, Comparison, NumberSource, Order};
use lib::simulation::computer::{
    name_of_register, register_with_name, Computer, RegisterAccessError, RegisterSet,
};
use lib::simulation::instruction::{ArithmaticError, InstructionEvaluationInterrupt};
use lib::simulation::integer::AssignIntegerError;
use lib::simulation::program::Program;
use lib::simulation::RunControl;

const COUNTING: &str = "; Store the numbers from 0 to 10, inclusive\nSET I 0\nLBL LOOP\nSET D I\nADD I 1 I\nJMP I < 10 LOOP\n";

fn load(source: &str) -> (Computer, Program) {
    let computer = default_computer(false);
    let program = Program::assemble_from("test".to_owned(), source, &computer).unwrap();
    (computer, program)
}

fn run(computer: &mut Computer, program: &Program) {
    let mut cycles = 0;
    while computer.interrupt.is_none() {
        computer.step_cycle(program);
        cycles += 1;
        assert!(cycles < 100_000, "the program should halt");
    }
}

fn value_of(computer: &Computer, name: char) -> i32 {
    let register = computer.registers.get(register_with_name(name).unwrap()).unwrap();
    register.values.value().unwrap().get()
}

#[test]
fn counting_example_fills_d() {
    let (mut computer, program) = load(COUNTING);
    run(&mut computer, &program);
    assert_eq!(computer.interrupt, Some(InstructionEvaluationInterrupt::ProgramComplete));
    let d = computer.registers.get(register_with_name('D').unwrap()).unwrap();
    let values: Vec<i32> = d.values.all_values().iter().map(|value| value.get()).collect();
    assert_eq!(values.len(), 100);
    for (i, value) in values.iter().enumerate() {
        if i < 10 {
            assert_eq!(*value, i as i32);
        } else {
            assert_eq!(*value, 0);
        }
    }
    assert_eq!(value_of(&computer, 'I'), 10);
    assert_eq!(computer.energy_used, 31);
}

#[test]
fn arithmetic_results() {
    let (mut computer, program) = load("SET X -7\nREM X 3 Y\nDIV X 3 Z\nNEG X\nEND");
    run(&mut computer, &program);
    assert_eq!(computer.interrupt, Some(InstructionEvaluationInterrupt::ProgramComplete));
    assert_eq!(value_of(&computer, 'Y'), 2);
    assert_eq!(value_of(&computer, 'Z'), -3);
    assert_eq!(value_of(&computer, 'X'), 7);
}

#[test]
fn odd_and_comparisons() {
    let (mut computer, program) = load("SET X 5\nODD X\nCMP X = 1 Y\nSET Z 4\nTCP Z > 9 Z\nFCP Z > 9 X\nEND");
    run(&mut computer, &program);
    assert_eq!(value_of(&computer, 'X'), 0);
    assert_eq!(value_of(&computer, 'Y'), 1);
    assert_eq!(value_of(&computer, 'Z'), 4);
}

#[test]
fn division_by_zero_interrupts() {
    let (mut computer, program) = load("DIV 5 0 X");
    run(&mut computer, &program);
    assert_eq!(
        computer.interrupt,
        Some(InstructionEvaluationInterrupt::ArithmaticError { error: ArithmaticError::DivideByZero })
    );
    assert_eq!(computer.previous_instruction, None);
}

#[test]
fn overflowing_write_interrupts() {
    let (mut computer, program) = load("ADD 9999 1 X");
    run(&mut computer, &program);
    assert_eq!(
        computer.interrupt,
        Some(InstructionEvaluationInterrupt::RegisterError {
            register: 23,
            error: RegisterAccessError::InvalidAssignment {
                error: AssignIntegerError::ValueTooBig { got: 10000, maximum: 9999 },
            },
        })
    );
}

#[test]
fn halted_computer_stays_halted() {
    let (mut computer, program) = load("SET X 3\nEND");
    run(&mut computer, &program);
    let runtime = computer.runtime;
    let energy = computer.energy_used;
    assert!(!computer.step_cycle(&program));
    assert!(computer.tick_complete);
    assert_eq!(computer.runtime, runtime);
    assert_eq!(computer.energy_used, energy);
    assert_eq!(value_of(&computer, 'X'), 3);
}

#[test]
fn counters_never_go_back() {
    let (mut computer, program) = load(COUNTING);
    let mut runtime = computer.runtime;
    let mut energy = computer.energy_used;
    while computer.interrupt.is_none() {
        computer.step_cycle(&program);
        assert!(computer.runtime >= runtime);
        assert!(computer.energy_used >= energy);
        runtime = computer.runtime;
        energy = computer.energy_used;
    }
}

#[test]
fn sleep_takes_its_ticks() {
    let (mut computer, program) = load("SLP 5\nEND");
    let ticks = computer.step_instruction(&program);
    assert_eq!(ticks, 5);
    assert_eq!(computer.block_time, 0);
    assert_eq!(computer.instruction, 1);
}

#[test]
fn step_tick_stops_at_a_tick() {
    let (mut computer, program) = load(COUNTING);
    computer.step_tick(&program);
    assert!(computer.tick_complete || computer.interrupt.is_some());
    assert_eq!(computer.runtime, 1);
}

#[test]
fn reset_zeroes_registers() {
    let (mut computer, program) = load(COUNTING);
    run(&mut computer, &program);
    computer.reset();
    assert_eq!(computer.interrupt, None);
    assert_eq!(computer.runtime, 0);
    assert_eq!(computer.energy_used, 0);
    assert_eq!(computer.instruction, 0);
    assert_eq!(value_of(&computer, 'I'), 0);
    let d = computer.registers.get(3).unwrap();
    assert!(d.values.all_values().iter().all(|value| value.get() == 0));
    run(&mut computer, &program);
    assert_eq!(value_of(&computer, 'I'), 10);
}

#[test]
fn register_names_round_trip() {
    for register in 0..26u32 {
        let name = name_of_register(register).unwrap();
        assert_eq!(register_with_name(name), Some(register));
    }
    assert_eq!(name_of_register(26), None);
    assert_eq!(register_with_name('a'), None);
    assert_eq!(name_of_register(0), Some('A'));
    assert_eq!(register_with_name('Z'), Some(25));
}

#[test]
fn buffered_write_lands_as_a_write() {
    let computer = default_computer(false);
    let mut buffered: RegisterSet = computer.registers.clone();
    let mut direct: RegisterSet = computer.registers.clone();
    buffered.buffered_write(8, 7).unwrap();
    assert_eq!(buffered.get(8).unwrap().values.value().unwrap().get(), 0);
    buffered.apply_buffered_writes();
    direct.write(8, 7).unwrap();
    for register in [3u32, 8] {
        let a = buffered.get(register).unwrap();
        let b = direct.get(register).unwrap();
        assert_eq!(a.values.index(), b.values.index());
        assert_eq!(a.values.value().unwrap().get(), b.values.value().unwrap().get());
    }
    assert_eq!(direct.get(3).unwrap().values.index(), 7);
}

#[test]
fn read_after_write() {
    let mut registers = default_computer(false).registers;
    registers.write(23, -42).unwrap();
    assert_eq!(registers.get(23).unwrap().values.value().unwrap().get(), -42);
    registers.write(3, 5).unwrap();
    assert_eq!(registers.get(3).unwrap().values.value().unwrap().get(), 5);
    assert!(matches!(registers.write(23, 10000), Err(RegisterAccessError::InvalidAssignment { .. })));
    assert_eq!(registers.get(23).unwrap().values.value().unwrap().get(), -42);
    assert!(matches!(registers.write(1, 0), Err(RegisterAccessError::NoSuchRegister { got: 1 })));
}

#[test]
fn comparison_is_one_or_zero_and_inverts() {
    let registers = RegisterSet::new_empty();
    let less = Comparison {
        ordering: Order::Less,
        invert: false,
        values: [NumberSource::Constant(1), NumberSource::Constant(2)],
    };
    assert_eq!(less.evaluate(&registers).unwrap().0, 1);
    let not_less = Comparison { invert: true, ..less };
    assert_eq!(not_less.evaluate(&registers).unwrap().0, 0);
    let greater = Comparison { ordering: Order::Greater, ..less };
    assert_eq!(greater.evaluate(&registers).unwrap().0, 0);
    let missing = Comparison {
        ordering: Order::Equal,
        invert: false,
        values: [NumberSource::Register(4), NumberSource::Constant(2)],
    };
    assert!(matches!(
        missing.evaluate(&registers),
        Err(InstructionEvaluationInterrupt::RegisterError { register: 4, .. })
    ));
}

#[test]
fn registers_display() {
    let computer = default_computer(false);
    let x = computer.registers.get(23).unwrap();
    assert_eq!(x.to_display_string(), "0");
    let i = computer.registers.get(8).unwrap();
    assert_eq!(i.to_display_string(), "0 → D");
    let d = computer.registers.get(3).unwrap();
    let mut expected = String::from("    [");
    for position in 0..19 {
        if position > 0 {
            expected.push(',');
        }
        expected.push_str(if position == 0 { "    >0" } else { "     0" });
    }
    expected.push_str(", ...][0]");
    assert_eq!(d.to_display_string(), expected);
    let text = computer.registers.to_display_string();
    assert_eq!(text, format!("D: {expected}\nI: 0 → D\nX: 0\nY: 0\nZ: 0\n"));
}

#[test]
fn blocked_register_display() {
    let mut computer = default_computer(true);
    computer.registers.write(12, 500).unwrap();
    let h = computer.registers.get(7).unwrap();
    let text = h.to_display_string();
    assert!(text.starts_with("[...,"));
    assert!(text.ends_with(", ...][500]\n(waiting for 16 ticks)"));
    assert!(text.contains("    >0"));
    assert_eq!(text.matches(',').count(), 18 + 2);
}

#[test]
fn run_commands() {
    let control = RunControl::new();
    assert!(control.print_execution);
    let ended = control.after_command("end").unwrap();
    assert_eq!(ended.skip_ticks, u64::MAX);
    assert!(!ended.print_execution);
    let counted = control.after_command("12 delay 5 ms").unwrap();
    assert_eq!(counted.skip_ticks, 12);
    assert_eq!(counted.repeat_ns, Some(5_000_000));
    assert!(counted.print_execution);
    let seconds = control.after_command("3 delay 2").unwrap();
    assert_eq!(seconds.repeat_ns, Some(2_000_000_000));
    let ignored = control.after_command("what").unwrap();
    assert_eq!(ignored.skip_ticks, 0);
    assert!(ignored.print_execution);
    assert!(control.after_command("1 delay 99999999999999 s").is_none());
    let cleared = counted.after_command("4 delay").unwrap();
    assert_eq!(cleared.repeat_ns, None);
    assert!(!cleared.print_execution);
    let mut ticking = RunControl { skip_ticks: 2, repeat_ns: None, print_execution: false };
    ticking.tick_completed();
    assert_eq!(ticking.skip_ticks, 1);
    assert!(!ticking.print_execution);
    ticking.tick_completed();
    assert_eq!(ticking.skip_ticks, 0);
    assert!(ticking.print_execution);
}

#[test]
fn slow_register_read_blocks_for_its_whole_time() {
    let (mut computer, program) = load("SET Y X\nEND");
    let x = register_with_name('X').unwrap() as usize;
    computer.registers.registers[x].as_mut().unwrap().read_time = 300_000_000;
    assert!(computer.step_cycle(&program));
    assert_eq!(computer.interrupt, None);
    assert_eq!(computer.block_time, 300_000_000);
}

#[test]
fn step_instruction_reports_the_runtime_it_adds() {
    let (mut computer, program) = load("SLP 3\nADD X 1 X\nSLP 2\nEND");
    let mut runtime = computer.runtime;
    while computer.interrupt.is_none() {
        let ticks = computer.step_instruction(&program);
        assert_eq!(computer.runtime, runtime + ticks);
        runtime = computer.runtime;
    }
    assert_eq!(value_of(&computer, 'X'), 1);
}

#[test]
fn write_to_a_missing_register_interrupts() {
    let (mut computer, mut program) = load("SET Y 1\nEND");
    program.instructions[0].arguments[0] = Argument::Number(NumberSource::Register(16));
    computer.step_cycle(&program);
    assert_eq!(
        computer.interrupt,
        Some(InstructionEvaluationInterrupt::RegisterError {
            register: 16,
            error: RegisterAccessError::NoSuchRegister { got: 16 },
        })
    );
}

#[test]
fn failed_compare_set_leaves_a_missing_target_alone() {
    let (mut computer, mut program) = load("TCP X > 9 Z\nEND");
    program.instructions[0].arguments[1] = Argument::Number(NumberSource::Register(16));
    computer.step_cycle(&program);
    assert_eq!(computer.interrupt, None);
    assert_eq!(computer.next_instruction, 1);
}
