use vstd::prelude::*;

use crate::simulation::computer::{
    register_with_name, spec_new_computer, spec_register_times_within,
    spec_registers_times_within, spec_times_within, BlockCondition, Computer, Register, RegisterSet, RegisterValues, RegisterView, ValuesView,
};
use crate::simulation::instruction::{
    default_instructions, spec_default_properties, spec_table_times_within, InstructionKind,
    InstructionKindMap, InstructionProperties,
};
use crate::simulation::integer::{DigitInteger, Integer};
use crate::simulation::program::{lemma_default_table_fills_slots, spec_table_fills_slots};

verus! {

broadcast use crate::simulation::integer::lemma_range_of_digits_positive;

/// Each value is zero, with `digits` digits.
pub open spec fn spec_all_zero(values: Seq<DigitInteger>, digits: u8) -> bool {
    forall|i: int| 0 <= i < values.len() ==> (#[trigger] values[i]).spec_get() == 0 && values[i].spec_digits() == digits
}

/// A register that holds one zero of `digits` digits, is never blocked and
/// takes no time to read or write.
pub open spec fn spec_plain_scalar(register: RegisterView, digits: u8, indexes_array: Option<u32>) -> bool {
    &&& register.values matches ValuesView::Scalar(value) && value.spec_get() == 0 && value.spec_digits()
        == digits
    &&& register.block_time == 0
    &&& register.block_reason is None
    &&& register.block_condition is None
    &&& register.indexes_array == indexes_array
    &&& register.indexed_by is None
    &&& register.read_time == 0
    &&& register.write_time == 0
}

/// A vector register of `length` zeros of `digits` digits, selected from the
/// start, indexed by `indexed_by`.
pub open spec fn spec_zero_vector(
    register: RegisterView,
    length: nat,
    digits: u8,
    indexed_by: u32,
    block_condition: Option<BlockCondition>,
    read_time: u32,
    write_time: u32,
) -> bool {
    &&& register.values matches ValuesView::Vector { values, index, offset } && values.len() == length
        && spec_all_zero(values, digits) && index == 0 && offset == 0
    &&& register.block_time == 0
    &&& register.block_reason is None
    &&& register.block_condition == block_condition
    &&& register.indexes_array is None
    &&& register.indexed_by == Some(indexed_by)
    &&& register.read_time == read_time
    &&& register.write_time == write_time
}

/// The registers of the standard machine: a 100-element array `D` indexed by
/// `I`, scalars `X`, `Y` and `Z`, and, with `h_register`, a slow
/// 10000-element array `H` indexed by `M` that blocks on large index jumps.
pub open spec fn spec_default_layout(registers: Seq<Option<RegisterView>>, h_register: bool) -> bool {
    &&& registers.len() == 26
    &&& forall|i: int|
        0 <= i < 26 ==> (#[trigger] registers[i] is Some <==> (i == 3 || i == 8 || i == 23 || i == 24
            || i == 25 || (h_register && (i == 7 || i == 12))))
    &&& registers[3] matches Some(d) && spec_zero_vector(d, 100, 3, 8, None, 1, 1)
    &&& registers[8] matches Some(i) && spec_plain_scalar(i, 3, Some(3u32))
    &&& registers[23] matches Some(x) && spec_plain_scalar(x, 3, None)
    &&& registers[24] matches Some(y) && spec_plain_scalar(y, 3, None)
    &&& registers[25] matches Some(z) && spec_plain_scalar(z, 3, None)
    &&& h_register ==> {
        &&& registers[7] matches Some(h) && spec_zero_vector(
            h,
            10000,
            3,
            12,
            Some(BlockCondition::IndexChange { minimum_change: 2, block_time: 16 }),
            2,
            4,
        )
        &&& registers[12] matches Some(m) && spec_plain_scalar(m, 3, Some(7u32))
    }
}

/// `count` zeros of `digits` digits.
fn zeros(count: usize, digits: u8) -> (result: Vec<DigitInteger>)
    requires
        digits <= 8,
    ensures
        result@.len() == count,
        spec_all_zero(result@, digits),
{
    let zero = DigitInteger::new(0, digits).unwrap();
    let mut result: Vec<DigitInteger> = Vec::new();
    let mut i: usize = 0;
    while i < count
        invariant
            i <= count,
            result@.len() == i,
            zero.spec_get() == 0 && zero.spec_digits() == digits,
            spec_all_zero(result@, digits),
        decreases count - i,
    {
        result.push(zero);
        i += 1;
    }
    result
}

/// A scalar register holding zero with `digits` digits.
fn zero_scalar(digits: u8, indexes_array: Option<u32>) -> (result: Register)
    requires
        digits <= 8,
    ensures
        spec_plain_scalar(result@, digits, indexes_array),
{
    Register {
        values: RegisterValues::Scalar(DigitInteger::new(0, digits).unwrap()),
        indexes_array,
        ..Register::default()
    }
}

/// Every time setting of the standard machine, in its registers and its
/// instruction table, is at most 16 ticks.
pub proof fn lemma_default_times_short(
    registers: Seq<Option<RegisterView>>,
    h_register: bool,
    table: InstructionKindMap<InstructionProperties>,
)
    requires
        spec_default_layout(registers, h_register),
        forall|kind: InstructionKind| #[trigger] table.spec_get(kind) == spec_default_properties(kind),
    ensures
        spec_registers_times_within(registers, 16),
        spec_table_times_within(table, 16),
{
    assert forall|i: int| 0 <= i < registers.len() implies (#[trigger] registers[i] matches Some(register)
        ==> spec_register_times_within(register, 16)) by {
        assert(registers[i] is Some <==> (i == 3 || i == 8 || i == 23 || i == 24 || i == 25 || (h_register && (i == 7
            || i == 12))));
    }
    assert forall|kind: InstructionKind| #![trigger table.spec_get(kind)] {
        &&& table.spec_get(kind).base_time <= 16
        &&& table.spec_get(kind).conditional_time matches Some((time, _)) ==> time <= 16
    } by {
        assert(table.spec_get(kind) == spec_default_properties(kind));
    }
}

/// The standard machine: three-digit registers (see `spec_default_layout`),
/// the standard instruction table, and nothing run yet.
pub fn default_computer(h_register: bool) -> (result: Computer)
    ensures
        result@ == spec_new_computer(
            3,
            result.registers.spec_registers(),
            Seq::empty(),
            result.instruction_properties,
        ),
        spec_default_layout(result.registers.spec_registers(), h_register),
        forall|kind: InstructionKind| #[trigger] result.instruction_properties.spec_get(kind)
            == spec_default_properties(kind),
        spec_table_fills_slots(result.instruction_properties),
        result.wf(),
        spec_times_within(result@, 16),
{
    let digits: u8 = 3;

    let registers = RegisterSet::new_empty().with_register(
        'D',
        Register {
            values: RegisterValues::Vector { values: zeros(100, digits), index: 0, offset: 0 },
            indexed_by: register_with_name('I'),
            read_time: 1,
            write_time: 1,
            ..Register::default()
        },
    ).with_register('I', zero_scalar(digits, register_with_name('D'))).with_register(
        'X',
        zero_scalar(digits, None),
    ).with_register('Y', zero_scalar(digits, None)).with_register('Z', zero_scalar(digits, None));

    let registers = if h_register {
        registers.with_register(
            'H',
            Register {
                values: RegisterValues::Vector { values: zeros(10000, digits), index: 0, offset: 0 },
                block_condition: Some(BlockCondition::IndexChange { minimum_change: 2, block_time: 16 }),
                indexed_by: register_with_name('M'),
                read_time: 2,
                write_time: 4,
                ..Register::default()
            },
        ).with_register('M', zero_scalar(digits, register_with_name('H')))
    } else {
        registers
    };

    let instruction_properties = default_instructions();
    proof {
        lemma_default_table_fills_slots(instruction_properties);
        assert(spec_default_layout(registers.spec_registers(), h_register));
        lemma_default_times_short(registers.spec_registers(), h_register, instruction_properties);
    }

    Computer::new(digits, registers, instruction_properties)
}

} // verus!
