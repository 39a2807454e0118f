use vstd::prelude::*;

use super::instruction::{
    spec_instruction_table_wf, spec_previous, spec_table_times_within, ArgumentValues, Instruction, InstructionEvaluationInterrupt,
    InstructionKindMap, InstructionProperties, NUM_ARGUMENTS, NUM_INSTRUCTION_KINDS,
};
use super::integer::{
    spec_check_value, spec_padding, spec_range_of_digits, AssignIntegerError, DigitInteger, Integer,
};
use super::text::{
    push_chars, push_decimal, push_str, spec_decimal, spec_digits_of, string_from_chars,
};
use super::argument::NumberSource;
use super::program::Program;

verus! {

broadcast use {
    super::integer::DigitInteger::lemma_with_value,
    super::integer::lemma_range_of_digits_positive,
};

pub const NUM_REGISTERS: usize = 26;

pub const MAX_REGISTER: u32 = 26;

#[allow(inconsistent_fields)]
#[derive(Clone, Copy, Debug, PartialEq, Eq, Structural)]
pub enum RegisterAccessError {
    IndexTooBig { got: Integer, maximum: Integer },
    IndexTooSmall { got: Integer, minimum: Integer },
    NoSuchRegister { got: u32 },
    InvalidAssignment { error: AssignIntegerError },
}

#[derive(Clone, Copy, Debug, PartialEq, Eq, Structural)]
pub enum CreateRegisterError {
    IndexOutOfBounds { got: u32, maximum: u32 },
}

#[derive(Clone, Copy, Debug, PartialEq, Eq, Structural)]
pub enum BlockReason {
    IndexIncreased,
    IndexWrittenNoOp,
    IndexDecreased,
}

#[derive(Clone, Copy, Debug, PartialEq, Eq, Structural)]
pub enum BlockCondition {
    IndexChange { minimum_change: u32, block_time: u32 },
}

/// `a - b`, clamped to the range of `Integer`.
pub open spec fn spec_saturating_sub(a: Integer, b: Integer) -> Integer {
    let difference = a - b;
    if difference > i32::MAX {
        i32::MAX
    } else if difference < i32::MIN {
        i32::MIN
    } else {
        difference as Integer
    }
}

pub fn saturating_sub(a: Integer, b: Integer) -> (result: Integer)
    ensures
        result == spec_saturating_sub(a, b),
{
    let difference = a as i64 - b as i64;
    if difference > i32::MAX as i64 {
        i32::MAX
    } else if difference < i32::MIN as i64 {
        i32::MIN
    } else {
        difference as Integer
    }
}

/// `|a - b|`.
pub fn abs_diff(a: Integer, b: Integer) -> (result: u32)
    ensures
        result == if a >= b {
            a - b
        } else {
            b - a
        },
{
    if a >= b {
        (a as i64 - b as i64) as u32
    } else {
        (b as i64 - a as i64) as u32
    }
}

/// A slice holding just `value`.
///
/// Trusted: calls std's `core::slice::from_ref`, documented to convert a
/// reference into a slice of length one; the contract claims that slice holds
/// `value`.
#[verifier::external_body]
fn single_element_slice(value: &DigitInteger) -> (result: &[DigitInteger])
    ensures
        result@ == seq![*value],
{
    core::slice::from_ref(value)
}

/// A mutable slice holding just `value`.
///
/// Trusted: calls std's `core::slice::from_mut`, documented to convert a mutable
/// reference into a slice of length one; the contract claims that slice holds
/// `value`, and that what is written to it is written to `value`.
#[verifier::external_body]
fn single_element_slice_mut(value: &mut DigitInteger) -> (result: &mut [DigitInteger])
    ensures
        result@ == seq![*old(value)],
        final(result)@.len() == 1,
        *final(value) == final(result)@[0],
{
    core::slice::from_mut(value)
}

#[derive(Clone, Debug)]
pub enum RegisterValues {
    Scalar(DigitInteger),
    Vector { values: Vec<DigitInteger>, index: Integer, offset: Integer },
}

/// The contents of a register, as mathematical values.
pub enum ValuesView {
    Scalar(DigitInteger),
    Vector { values: Seq<DigitInteger>, index: Integer, offset: Integer },
}

impl View for RegisterValues {
    type V = ValuesView;

    open spec fn view(&self) -> ValuesView {
        match *self {
            RegisterValues::Scalar(value) => ValuesView::Scalar(value),
            RegisterValues::Vector { values, index, offset } => ValuesView::Vector {
                values: values@,
                index,
                offset,
            },
        }
    }
}

impl ValuesView {
    /// The reported bounds of a vector fit in an `Integer`.
    pub open spec fn wf(self) -> bool {
        match self {
            ValuesView::Scalar(_) => true,
            ValuesView::Vector { values, index, offset } => {
                &&& values.len() <= i32::MAX
                &&& i32::MIN <= values.len() - 1 - offset <= i32::MAX
            },
        }
    }

    /// The position of the selected element: the index, shifted by the offset.
    pub open spec fn position(self) -> int {
        match self {
            ValuesView::Scalar(_) => 0,
            ValuesView::Vector { index, offset, .. } => spec_saturating_sub(index, offset) as int,
        }
    }

    /// The selected value, or why it cannot be accessed.
    pub open spec fn selected(self) -> Result<DigitInteger, RegisterAccessError> {
        match self {
            ValuesView::Scalar(value) => Ok(value),
            ValuesView::Vector { values, index, offset } => {
                let position = self.position();
                if position < 0 {
                    Err(RegisterAccessError::IndexTooSmall { got: index, minimum: offset })
                } else if position >= values.len() {
                    Err(
                        RegisterAccessError::IndexTooBig {
                            got: index,
                            maximum: (values.len() - 1 - offset) as Integer,
                        },
                    )
                } else {
                    Ok(values[position])
                }
            },
        }
    }

    /// The same values with the selected element replaced.
    pub open spec fn with_selected(self, value: DigitInteger) -> ValuesView {
        match self {
            ValuesView::Scalar(_) => ValuesView::Scalar(value),
            ValuesView::Vector { values, index, offset } => ValuesView::Vector {
                values: values.update(self.position(), value),
                index,
                offset,
            },
        }
    }

    /// Every element the register holds, in order.
    pub open spec fn all_values(self) -> Seq<DigitInteger> {
        match self {
            ValuesView::Scalar(value) => seq![value],
            ValuesView::Vector { values, .. } => values,
        }
    }

    /// The same register holding `values` in place of its elements.
    pub open spec fn with_all_values(self, values: Seq<DigitInteger>) -> ValuesView {
        match self {
            ValuesView::Scalar(_) => ValuesView::Scalar(values[0]),
            ValuesView::Vector { index, offset, .. } => ValuesView::Vector { values, index, offset },
        }
    }

    /// The index of a vector (zero for a scalar).
    pub open spec fn index(self) -> Integer {
        match self {
            ValuesView::Scalar(_) => 0,
            ValuesView::Vector { index, .. } => index,
        }
    }

    /// The offset of a vector (zero for a scalar).
    pub open spec fn offset(self) -> Integer {
        match self {
            ValuesView::Scalar(_) => 0,
            ValuesView::Vector { offset, .. } => offset,
        }
    }
}

impl RegisterValues {
    pub fn value(&self) -> (result: Result<&DigitInteger, RegisterAccessError>)
        requires
            self@.wf(),
        ensures
            match result {
                Ok(value) => self@.selected() == Ok::<_, RegisterAccessError>(*value),
                Err(error) => self@.selected() == Err::<DigitInteger, _>(error),
            },
    {
        match self {
            RegisterValues::Scalar(value) => Ok(value),
            RegisterValues::Vector { values, index, offset } => {
                let position = saturating_sub(*index, *offset);
                if position < 0 {
                    Err(RegisterAccessError::IndexTooSmall { got: *index, minimum: *offset })
                } else if (position as usize) < values.len() {
                    Ok(&values[position as usize])
                } else {
                    Err(
                        RegisterAccessError::IndexTooBig {
                            got: *index,
                            maximum: values.len() as Integer - 1 - *offset,
                        },
                    )
                }
            },
        }
    }

    pub fn value_mut(&mut self) -> (result: Result<&mut DigitInteger, RegisterAccessError>)
        requires
            old(self)@.wf(),
        ensures
            match result {
                Ok(value) => {
                    &&& old(self)@.selected() == Ok::<_, RegisterAccessError>(*value)
                    &&& final(self)@ == old(self)@.with_selected(*final(value))
                },
                Err(error) => {
                    &&& old(self)@.selected() == Err::<DigitInteger, _>(error)
                    &&& *final(self) == *old(self)
                },
            },
    {
        match self {
            RegisterValues::Scalar(value) => Ok(value),
            RegisterValues::Vector { values, index, offset } => {
                let position = saturating_sub(*index, *offset);
                if position < 0 {
                    Err(RegisterAccessError::IndexTooSmall { got: *index, minimum: *offset })
                } else if (position as usize) < values.len() {
                    Ok(&mut values[position as usize])
                } else {
                    Err(
                        RegisterAccessError::IndexTooBig {
                            got: *index,
                            maximum: values.len() as Integer - 1 - *offset,
                        },
                    )
                }
            },
        }
    }

    pub fn all_values(&self) -> (result: &[DigitInteger])
        ensures
            result@ == self@.all_values(),
    {
        match self {
            RegisterValues::Scalar(value) => single_element_slice(value),
            RegisterValues::Vector { values, .. } => values.as_slice(),
        }
    }

    pub fn all_values_mut(&mut self) -> (result: &mut [DigitInteger])
        ensures
            result@ == old(self)@.all_values(),
            final(self)@ == old(self)@.with_all_values(final(result)@),
    {
        match self {
            RegisterValues::Scalar(value) => single_element_slice_mut(value),
            RegisterValues::Vector { values, .. } => values.as_mut_slice(),
        }
    }

    pub fn index(&self) -> (result: Integer)
        ensures
            result == self@.index(),
    {
        match self {
            RegisterValues::Scalar(_) => 0,
            RegisterValues::Vector { index, .. } => *index,
        }
    }

    pub fn offset(&self) -> (result: Integer)
        ensures
            result == self@.offset(),
    {
        match self {
            RegisterValues::Scalar(_) => 0,
            RegisterValues::Vector { offset, .. } => *offset,
        }
    }
}


#[derive(Clone, Debug)]
pub struct Register {
    pub values: RegisterValues,
    pub block_time: u32,
    pub block_reason: Option<BlockReason>,
    pub block_condition: Option<BlockCondition>,
    pub indexes_array: Option<u32>,
    pub indexed_by: Option<u32>,
    pub read_time: u32,
    pub write_time: u32,
}

/// A register, as mathematical values.
pub struct RegisterView {
    pub values: ValuesView,
    pub block_time: u32,
    pub block_reason: Option<BlockReason>,
    pub block_condition: Option<BlockCondition>,
    pub indexes_array: Option<u32>,
    pub indexed_by: Option<u32>,
    pub read_time: u32,
    pub write_time: u32,
}

impl View for Register {
    type V = RegisterView;

    open spec fn view(&self) -> RegisterView {
        RegisterView {
            values: self.values@,
            block_time: self.block_time,
            block_reason: self.block_reason,
            block_condition: self.block_condition,
            indexes_array: self.indexes_array,
            indexed_by: self.indexed_by,
            read_time: self.read_time,
            write_time: self.write_time,
        }
    }
}

/// The view of an optional register.
pub open spec fn optional_view(register: Option<Register>) -> Option<RegisterView> {
    match register {
        Some(register) => Some(register@),
        None => None,
    }
}

impl RegisterView {
    /// The register with every element set to zero, its index reset and any
    /// block lifted.
    pub open spec fn zeroed(self) -> RegisterView {
        RegisterView {
            block_time: 0,
            values: match self.values {
                ValuesView::Scalar(value) => ValuesView::Scalar(value.spec_with_value(0)),
                ValuesView::Vector { values, offset, .. } => ValuesView::Vector {
                    values: values.map_values(|value: DigitInteger| value.spec_with_value(0)),
                    index: 0,
                    offset,
                },
            },
            ..self
        }
    }

    /// The register after one tick without being blocked anew: a pending block
    /// counts down, and its reason is forgotten once it runs out.
    pub open spec fn after_tick(self) -> RegisterView {
        if self.block_time > 0 {
            let block_time = (self.block_time - 1) as u32;
            RegisterView {
                block_time,
                block_reason: if block_time == 0 {
                    None
                } else {
                    self.block_reason
                },
                ..self
            }
        } else {
            self
        }
    }
}

impl Register {
    pub fn end_of_tick(&mut self)
        ensures
            final(self)@ == old(self)@.after_tick(),
    {
        if self.block_time > 0 {
            self.block_time -= 1;

            if self.block_time == 0 {
                self.block_reason = None;
            }
        }
    }

    /// Adds the time it takes to write to this register, and waits for any block
    /// on it to run out.
    pub fn set_time_to_write(&self, write_time: &mut u32, block_time: &mut u32)
        requires
            *old(write_time) + self.write_time <= u32::MAX,
        ensures
            *final(write_time) == *old(write_time) + self.write_time,
            *final(block_time) == if self.block_time > *old(block_time) {
                self.block_time
            } else {
                *old(block_time)
            },
    {
        *write_time += self.write_time;
        *block_time = if self.block_time > *block_time {
            self.block_time
        } else {
            *block_time
        };
    }
}

impl Default for Register {
    fn default() -> (result: Self)
        ensures
            result.values@ == ValuesView::Scalar(DigitInteger::spec_dummy()),
            result.block_time == 0,
            result.block_reason is None,
            result.block_condition is None,
            result.indexes_array is None,
            result.indexed_by is None,
            result.read_time == 0,
            result.write_time == 0,
    {
        Register {
            values: RegisterValues::Scalar(DigitInteger::dummy()),
            block_time: 0,
            block_reason: None,
            block_condition: None,
            indexes_array: None,
            indexed_by: None,
            read_time: 0,
            write_time: 0,
        }
    }
}


/// Which way a write moved a vector's index.
pub open spec fn spec_block_reason(old_index: Integer, new_index: Integer) -> BlockReason {
    if new_index < old_index {
        BlockReason::IndexDecreased
    } else if new_index == old_index {
        BlockReason::IndexWrittenNoOp
    } else {
        BlockReason::IndexIncreased
    }
}

/// The register at `index`, if the set holds one there.
pub open spec fn spec_lookup(registers: Seq<Option<RegisterView>>, index: u32) -> Option<
    RegisterView,
> {
    if index < registers.len() {
        registers[index as int]
    } else {
        None
    }
}

/// Points the vector register `array` at `value`, as writing `value` to the
/// register `writer` that indexes it does.
pub open spec fn spec_reindex(
    registers: Seq<Option<RegisterView>>,
    writer: u32,
    array: u32,
    value: Integer,
) -> (Seq<Option<RegisterView>>, Result<(), RegisterAccessError>) {
    match spec_lookup(registers, array) {
        None => (registers, Err(RegisterAccessError::NoSuchRegister { got: array })),
        Some(indexed) => {
            let marked = RegisterView { indexed_by: Some(writer), ..indexed };
            match marked.values {
                ValuesView::Vector { values, index, offset } => {
                    let blocked = match marked.block_condition {
                        Some(BlockCondition::IndexChange { minimum_change, block_time }) => {
                            if (if index >= value {
                                index - value
                            } else {
                                value - index
                            }) >= minimum_change {
                                RegisterView {
                                    block_reason: Some(spec_block_reason(index, value)),
                                    block_time,
                                    ..marked
                                }
                            } else {
                                marked
                            }
                        },
                        None => marked,
                    };
                    (
                        registers.update(
                            array as int,
                            Some(
                                RegisterView {
                                    values: ValuesView::Vector { values, index: value, offset },
                                    ..blocked
                                },
                            ),
                        ),
                        Ok(()),
                    )
                },
                ValuesView::Scalar(_) => (
                    registers.update(array as int, Some(marked)),
                    Err(RegisterAccessError::NoSuchRegister { got: array }),
                ),
            }
        },
    }
}

/// Stores `value` in the selected element of `register`, found at `index`
/// holding `current`.
pub open spec fn spec_store_selected(
    registers: Seq<Option<RegisterView>>,
    index: u32,
    register: RegisterView,
    current: DigitInteger,
    value: Integer,
) -> Seq<Option<RegisterView>> {
    registers.update(
        index as int,
        Some(
            RegisterView {
                values: register.values.with_selected(current.spec_with_value(value)),
                ..register
            },
        ),
    )
}

/// Writes `value` to the register at `index`: the registers afterwards, and
/// whether the write succeeded.
pub open spec fn spec_write(registers: Seq<Option<RegisterView>>, index: u32, value: Integer) -> (
    Seq<Option<RegisterView>>,
    Result<(), RegisterAccessError>,
) {
    match spec_lookup(registers, index) {
        None => (registers, Err(RegisterAccessError::NoSuchRegister { got: index })),
        Some(register) => match register.values.selected() {
            Err(error) => (registers, Err(error)),
            Ok(current) => match spec_check_value(value, current.spec_digits()) {
                Err(error) => (registers, Err(RegisterAccessError::InvalidAssignment { error })),
                Ok(_) => {
                    let written = spec_store_selected(registers, index, register, current, value);
                    match register.indexes_array {
                        None => (written, Ok(())),
                        Some(array) => spec_reindex(written, index, array, value),
                    }
                },
            },
        },
    }
}

/// Whether a buffered write of `value` to `index` is accepted.
pub open spec fn spec_buffered_write_check(
    registers: Seq<Option<RegisterView>>,
    index: u32,
    value: Integer,
) -> Result<(), RegisterAccessError> {
    match spec_lookup(registers, index) {
        None => Err(RegisterAccessError::NoSuchRegister { got: index }),
        Some(register) => match register.values.selected() {
            Err(error) => Err(error),
            Ok(current) => match spec_check_value(value, current.spec_digits()) {
                Err(error) => Err(RegisterAccessError::InvalidAssignment { error }),
                Ok(_) => Ok(()),
            },
        },
    }
}

/// Whether each of `writes`, applied in order, succeeds.
pub open spec fn spec_writes_succeed(
    registers: Seq<Option<RegisterView>>,
    writes: Seq<(u32, Integer)>,
) -> bool
    decreases writes.len(),
{
    if writes.len() == 0 {
        true
    } else {
        let (after, result) = spec_write(registers, writes[0].0, writes[0].1);
        result is Ok && spec_writes_succeed(after, writes.drop_first())
    }
}

/// The registers after applying each of `writes` in order.
pub open spec fn spec_apply_writes(
    registers: Seq<Option<RegisterView>>,
    writes: Seq<(u32, Integer)>,
) -> Seq<Option<RegisterView>>
    decreases writes.len(),
{
    if writes.len() == 0 {
        registers
    } else {
        spec_apply_writes(spec_write(registers, writes[0].0, writes[0].1).0, writes.drop_first())
    }
}

/// Every time setting of the register is at most `bound` ticks: its read and
/// write times, its current block, and the block a change of index sets.
pub open spec fn spec_register_times_within(register: RegisterView, bound: int) -> bool {
    &&& register.read_time <= bound
    &&& register.write_time <= bound
    &&& register.block_time <= bound
    &&& register.block_condition matches Some(BlockCondition::IndexChange { block_time, .. }) ==> block_time <= bound
}

/// Every time setting of every register present is at most `bound` ticks.
pub open spec fn spec_registers_times_within(registers: Seq<Option<RegisterView>>, bound: int) -> bool {
    forall|i: int|
        0 <= i < registers.len() ==> (#[trigger] registers[i] matches Some(register) ==> spec_register_times_within(
            register,
            bound,
        ))
}

/// A write keeps every time setting within `bound`: the only time it sets is
/// the block a change of index imposes, which is one of the settings.
proof fn lemma_write_keeps_times(registers: Seq<Option<RegisterView>>, index: u32, value: Integer, bound: int)
    requires
        spec_registers_times_within(registers, bound),
    ensures
        spec_registers_times_within(spec_write(registers, index, value).0, bound),
{
    let after = spec_write(registers, index, value).0;
    assert forall|i: int| 0 <= i < after.len() implies (#[trigger] after[i] matches Some(register)
        ==> spec_register_times_within(register, bound)) by {
        if let Some(register) = spec_lookup(registers, index) {
            assert(registers[index as int] == Some(register));
            if let Some(array) = register.indexes_array {
                if (array as int) < registers.len() && registers[array as int] is Some {
                    assert(spec_register_times_within(registers[array as int]->Some_0, bound));
                }
            }
        }
    }
}

/// Applying writes keeps every time setting within `bound`.
proof fn lemma_apply_writes_keeps_times(
    registers: Seq<Option<RegisterView>>,
    writes: Seq<(u32, Integer)>,
    bound: int,
)
    requires
        spec_registers_times_within(registers, bound),
    ensures
        spec_registers_times_within(spec_apply_writes(registers, writes), bound),
    decreases writes.len(),
{
    if writes.len() > 0 {
        lemma_write_keeps_times(registers, writes[0].0, writes[0].1, bound);
        lemma_apply_writes_keeps_times(spec_write(registers, writes[0].0, writes[0].1).0, writes.drop_first(), bound);
    }
}

/// Writing keeps the registers well formed: it changes element values, a
/// vector's index and block state, but never a register's shape or links.
pub proof fn lemma_write_preserves_wf(registers: Seq<Option<RegisterView>>, index: u32, value: Integer)
    requires
        spec_registers_wf(registers),
    ensures
        spec_registers_wf(spec_write(registers, index, value).0),
{
    let after = spec_write(registers, index, value).0;
    assert forall|i: int| 0 <= i < after.len() implies (#[trigger] after[i] matches Some(
        register,
    ) ==> {
        &&& register.values.wf()
        &&& register.indexes_array matches Some(array) ==> {
            &&& array < NUM_REGISTERS
            &&& after[array as int] matches Some(indexed) && indexed.values is Vector
        }
    }) by {
        if let Some(register) = spec_lookup(registers, index) {
            if let Ok(current) = register.values.selected() {
                let written = spec_store_selected(registers, index, register, current, value);
                assert(written[i] matches Some(r) ==> r.values.wf());
            }
        }
    }
}

/// Every present register has bounds that fit an `Integer`, and each register
/// that indexes an array points at a vector register of the set.
pub open spec fn spec_registers_wf(registers: Seq<Option<RegisterView>>) -> bool {
    &&& registers.len() == NUM_REGISTERS
    &&& forall|i: int|
        0 <= i < registers.len() ==> (#[trigger] registers[i] matches Some(register) ==> {
            &&& register.values.wf()
            &&& register.indexes_array matches Some(array) ==> {
                &&& array < NUM_REGISTERS
                &&& registers[array as int] matches Some(indexed) && indexed.values is Vector
            }
        })
}

#[derive(Clone, Debug)]
pub struct RegisterSet {
    pub registers: Vec<Option<Register>>,
    buffered_writes: Vec<(u32, Integer)>,
}

impl RegisterSet {
    /// The registers, by index.
    pub closed spec fn spec_registers(self) -> Seq<Option<RegisterView>> {
        self.registers@.map_values(|register: Option<Register>| optional_view(register))
    }

    /// The writes waiting to be applied, oldest first.
    pub closed spec fn spec_buffered_writes(self) -> Seq<(u32, Integer)> {
        self.buffered_writes@
    }

    pub open spec fn wf(self) -> bool {
        spec_registers_wf(self.spec_registers())
    }

    pub fn new_empty() -> (result: Self)
        ensures
            result.spec_registers() == Seq::new(NUM_REGISTERS as nat, |i: int| None::<RegisterView>),
            result.spec_buffered_writes() == Seq::<(u32, Integer)>::empty(),
            result.wf(),
    {
        let mut registers: Vec<Option<Register>> = Vec::new();
        let mut i: usize = 0;
        while i < NUM_REGISTERS
            invariant
                i <= NUM_REGISTERS,
                registers@.len() == i,
                forall|j: int| 0 <= j < i ==> registers@[j] is None,
            decreases NUM_REGISTERS - i,
        {
            registers.push(None);
            i += 1;
        }
        let result = Self { registers, buffered_writes: Vec::new() };
        assert(result.spec_registers() =~= Seq::new(NUM_REGISTERS as nat, |i: int| None::<RegisterView>));
        result
    }

    /// The view of the register stored at a position of the vector.
    proof fn lemma_view_at(self, index: int)
        requires
            0 <= index < self.registers@.len(),
        ensures
            self.spec_registers()[index] == optional_view(self.registers@[index]),
            self.spec_registers().len() == self.registers@.len(),
    {
    }

    /// Storing a register at a position updates the view at that position.
    proof fn lemma_update_view(registers: Seq<Option<Register>>, index: int, register: Option<Register>)
        requires
            0 <= index < registers.len(),
        ensures
            registers.update(index, register).map_values(
                |register: Option<Register>| optional_view(register),
            ) =~= registers.map_values(|register: Option<Register>| optional_view(register)).update(
                index,
                optional_view(register),
            ),
    {
    }

    fn get_mut(&mut self, index: u32) -> (result: Option<&mut Register>)
        ensures
            final(self).buffered_writes@ == old(self).buffered_writes@,
            match result {
                Some(register) => {
                    &&& index < old(self).registers@.len()
                    &&& old(self).registers@[index as int] == Some(*register)
                    &&& final(self).registers@ == old(self).registers@.update(
                        index as int,
                        Some(*final(register)),
                    )
                },
                None => {
                    &&& spec_lookup(old(self).spec_registers(), index) is None
                    &&& final(self).registers@ == old(self).registers@
                },
            },
    {
        if (index as usize) < self.registers.len() {
            proof {
                self.lemma_view_at(index as int);
            }
            self.registers[index as usize].as_mut()
        } else {
            None
        }
    }

    #[verifier::spinoff_prover]
    pub fn write(&mut self, index: u32, value: Integer) -> (result: Result<(), RegisterAccessError>)
        requires
            old(self).wf(),
        ensures
            (final(self).spec_registers(), result) == spec_write(
                old(self).spec_registers(),
                index,
                value,
            ),
            final(self).spec_buffered_writes() == old(self).spec_buffered_writes(),
            final(self).wf(),
    {
        proof {
            lemma_write_preserves_wf(self.spec_registers(), index, value);
        }
        let ghost registers0 = self.registers@;
        proof {
            if (index as int) < self.registers@.len() {
                self.lemma_view_at(index as int);
            }
        }
        let register = match self.get_mut(index) {
            Some(register) => register,
            None => return Err(RegisterAccessError::NoSuchRegister { got: index }),
        };
        let ghost old_register = *register;
        let indexes_array = register.indexes_array;
        let current = match register.values.value_mut() {
            Ok(current) => current,
            Err(error) => return Err(error),
        };
        let ghost current0 = *current;
        match current.try_set(value) {
            Ok(()) => {},
            Err(error) => {
                proof {
                    Self::lemma_update_view(registers0, index as int, self.registers@[index as int]);
                    if let ValuesView::Vector { values, .. } = old_register.values@ {
                        assert(values.update(old_register.values@.position(), current0) =~= values);
                    }
                    assert(self.spec_registers() =~= old(self).spec_registers());
                }
                return Err(RegisterAccessError::InvalidAssignment { error });
            },
        }
        let ghost registers1 = self.registers@;
        proof {
            Self::lemma_update_view(registers0, index as int, registers1[index as int]);
            assert(registers1 == registers0.update(index as int, registers1[index as int]));
            assert(old_register.values@.selected() == Ok::<_, RegisterAccessError>(current0));
            assert(self.spec_registers() =~= spec_store_selected(
                old(self).spec_registers(),
                index,
                old_register@,
                current0,
                value,
            ));
        }
        let ghost written = self.spec_registers();
        if let Some(array_index) = indexes_array {
            proof {
                if (array_index as int) < self.registers@.len() {
                    self.lemma_view_at(array_index as int);
                }
            }
            let ghost registers2 = self.registers@;
            let indexed_register = match self.get_mut(array_index) {
                Some(indexed_register) => indexed_register,
                None => return Err(RegisterAccessError::NoSuchRegister { got: array_index }),
            };
            let ghost old_indexed = *indexed_register;
            indexed_register.indexed_by = Some(index);
            match &mut indexed_register.values {
                RegisterValues::Vector { index: vector_index, .. } => {
                    if let Some(
                        BlockCondition::IndexChange { minimum_change, block_time },
                    ) = indexed_register.block_condition {
                        if abs_diff(*vector_index, value) >= minimum_change {
                            indexed_register.block_reason = Some(
                                if value < *vector_index {
                                    BlockReason::IndexDecreased
                                } else if value == *vector_index {
                                    BlockReason::IndexWrittenNoOp
                                } else {
                                    BlockReason::IndexIncreased
                                },
                            );
                            indexed_register.block_time = block_time;
                        }
                    }
                    *vector_index = value;
                },
                _ => {
                    proof {
                        Self::lemma_update_view(
                            registers2,
                            array_index as int,
                            self.registers@[array_index as int],
                        );
                    }
                    return Err(RegisterAccessError::NoSuchRegister { got: array_index });
                },
            }
            proof {
                Self::lemma_update_view(
                    registers2,
                    array_index as int,
                    self.registers@[array_index as int],
                );
                assert(spec_lookup(written, array_index) == Some(old_indexed@));
                assert(self.spec_registers() =~= spec_reindex(written, index, array_index, value).0);
            }
        }
        Ok(())
    }

    pub fn buffered_write(&mut self, index: u32, value: Integer) -> (result: Result<
        (),
        RegisterAccessError,
    >)
        requires
            old(self).wf(),
        ensures
            final(self).spec_registers() == old(self).spec_registers(),
            result == spec_buffered_write_check(old(self).spec_registers(), index, value),
            final(self).spec_buffered_writes() == if result is Ok {
                old(self).spec_buffered_writes().push((index, value))
            } else {
                old(self).spec_buffered_writes()
            },
    {
        proof {
            if (index as int) < self.registers@.len() {
                self.lemma_view_at(index as int);
            }
        }
        let register = match self.get(index) {
            Some(register) => register,
            None => return Err(RegisterAccessError::NoSuchRegister { got: index }),
        };
        let current = match register.values.value() {
            Ok(current) => current,
            Err(error) => return Err(error),
        };
        match current.is_valid(value) {
            Ok(()) => {},
            Err(error) => return Err(RegisterAccessError::InvalidAssignment { error }),
        }
        self.buffered_writes.push((index, value));
        Ok(())
    }

    pub fn apply_buffered_writes(&mut self)
        requires
            old(self).wf(),
            spec_writes_succeed(old(self).spec_registers(), old(self).spec_buffered_writes()),
        ensures
            final(self).spec_registers() == spec_apply_writes(
                old(self).spec_registers(),
                old(self).spec_buffered_writes(),
            ),
            final(self).spec_buffered_writes() == Seq::<(u32, Integer)>::empty(),
            final(self).wf(),
    {
        let mut buffered_writes: Vec<(u32, Integer)> = Vec::new();
        std::mem::swap(&mut buffered_writes, &mut self.buffered_writes);
        let ghost writes = buffered_writes@;
        proof {
            assert(writes.skip(0) =~= writes);
        }
        let mut i: usize = 0;
        while i < buffered_writes.len()
            invariant
                0 <= i <= buffered_writes.len(),
                buffered_writes@ == writes,
                writes == old(self).spec_buffered_writes(),
                self.wf(),
                spec_apply_writes(self.spec_registers(), writes.skip(i as int))
                    == spec_apply_writes(old(self).spec_registers(), writes),
                spec_writes_succeed(self.spec_registers(), writes.skip(i as int)),
            decreases buffered_writes.len() - i,
        {
            let (register, value) = buffered_writes[i];
            proof {
                assert(writes.skip(i as int)[0] == (register, value));
                assert(writes.skip(i as int).drop_first() =~= writes.skip(i + 1));
                lemma_write_preserves_wf(self.spec_registers(), register, value);
            }
            let result = self.write(register, value);
            result.unwrap();
            i += 1;
        }
        proof {
            assert(writes.skip(i as int) =~= Seq::<(u32, Integer)>::empty());
        }
        buffered_writes.clear();
        self.buffered_writes = buffered_writes;
    }

    pub fn add_register(&mut self, index: u32, register: Register) -> (result: Result<
        Option<Register>,
        CreateRegisterError,
    >)
        requires
            old(self).spec_registers().len() == NUM_REGISTERS,
        ensures
            final(self).spec_buffered_writes() == old(self).spec_buffered_writes(),
            index < NUM_REGISTERS ==> {
                &&& result matches Ok(previous) && optional_view(previous) == spec_lookup(
                    old(self).spec_registers(),
                    index,
                )
                &&& final(self).spec_registers() == old(self).spec_registers().update(
                    index as int,
                    Some(register@),
                )
            },
            index >= NUM_REGISTERS ==> {
                &&& result == Err::<Option<Register>, _>(
                    CreateRegisterError::IndexOutOfBounds { got: index, maximum: 25 },
                )
                &&& final(self).spec_registers() == old(self).spec_registers()
            },
    {
        if (index as usize) < self.registers.len() {
            proof {
                self.lemma_view_at(index as int);
                Self::lemma_update_view(self.registers@, index as int, Some(register));
            }
            let mut previous = Some(register);
            std::mem::swap(&mut self.registers[index as usize], &mut previous);
            Ok(previous)
        } else {
            Err(
                CreateRegisterError::IndexOutOfBounds {
                    got: index,
                    maximum: NUM_REGISTERS as u32 - 1,
                },
            )
        }
    }

    pub fn with_register(self, register_name: char, register: Register) -> (result: Self)
        requires
            'A' <= register_name <= 'Z',
            self.spec_registers().len() == NUM_REGISTERS,
        ensures
            result.spec_buffered_writes() == self.spec_buffered_writes(),
            result.spec_registers() == self.spec_registers().update(
                spec_register_with_name(register_name).unwrap() as int,
                Some(register@),
            ),
            result.spec_registers().len() == NUM_REGISTERS,
    {
        let mut result = self;
        let index = register_with_name(register_name).unwrap();
        result.add_register(index, register).unwrap();
        result
    }

    pub fn reset_to_zero(&mut self)
        requires
            old(self).wf(),
        ensures
            final(self).spec_buffered_writes() == Seq::<(u32, Integer)>::empty(),
            final(self).spec_registers() == old(self).spec_registers().map_values(
                |register: Option<RegisterView>| match register {
                    Some(register) => Some(register.zeroed()),
                    None => None,
                },
            ),
            final(self).wf(),
    {
        self.buffered_writes.clear();
        let ghost registers0 = self.registers@;
        let mut i: usize = 0;
        while i < self.registers.len()
            invariant
                self.registers@.len() == registers0.len() == NUM_REGISTERS,
                0 <= i <= NUM_REGISTERS,
                self.buffered_writes@ == Seq::<(u32, Integer)>::empty(),
                forall|j: int|
                    0 <= j < i ==> optional_view(#[trigger] self.registers@[j]) == match optional_view(
                        registers0[j],
                    ) {
                        Some(register) => Some(register.zeroed()),
                        None => None,
                    },
                forall|j: int| i <= j < NUM_REGISTERS ==> #[trigger] self.registers@[j] == registers0[j],
            decreases NUM_REGISTERS - i,
        {
            let mut entry: Option<Register> = None;
            std::mem::swap(&mut self.registers[i], &mut entry);
            if let Some(mut register) = entry {
                register.block_time = 0;
                match &mut register.values {
                    RegisterValues::Scalar(value) => {
                        value.try_set(0).unwrap();
                    },
                    RegisterValues::Vector { values, index, .. } => {
                        let ghost values0 = values@;
                        let mut j: usize = 0;
                        while j < values.len()
                            invariant
                                values@.len() == values0.len(),
                                0 <= j <= values@.len(),
                                forall|k: int|
                                    0 <= k < j ==> #[trigger] values@[k] == values0[k].spec_with_value(
                                        0,
                                    ),
                                forall|k: int| j <= k < values@.len() ==> #[trigger] values@[k] == values0[k],
                            decreases values@.len() - j,
                        {
                            let mut value = values[j];
                            value.try_set(0).unwrap();
                            values.set(j, value);
                            j += 1;
                        }
                        assert(values@ =~= values0.map_values(
                            |value: DigitInteger| value.spec_with_value(0),
                        ));
                        *index = 0;
                    },
                }
                entry = Some(register);
            }
            std::mem::swap(&mut self.registers[i], &mut entry);
            i += 1;
        }
        assert(self.spec_registers() =~= registers0.map_values(
            |register: Option<Register>| optional_view(register),
        ).map_values(
            |register: Option<RegisterView>| match register {
                Some(register) => Some(register.zeroed()),
                None => None,
            },
        ));
    }

    /// Each register of a well-formed set has well-formed values.
    pub proof fn lemma_wf_values(self, index: u32)
        requires
            self.wf(),
        ensures
            spec_lookup(self.spec_registers(), index) matches Some(register) ==> register.values.wf(),
    {
    }

    pub fn get(&self, index: u32) -> (result: Option<&Register>)
        ensures
            match result {
                Some(register) => spec_lookup(self.spec_registers(), index) == Some(register@),
                None => spec_lookup(self.spec_registers(), index) is None,
            },
    {
        if (index as usize) < self.registers.len() {
            self.registers[index as usize].as_ref()
        } else {
            None
        }
    }
}


/// The register named by an upper-case letter, counting from `A`.
pub open spec fn spec_register_with_name(name: char) -> Option<u32> {
    if 'A' <= name <= 'Z' {
        Some((name as u32 - 65) as u32)
    } else {
        None
    }
}

/// The letter that names a register.
pub open spec fn spec_name_of_register(register: u32) -> Option<char> {
    if register < 26 {
        Some(((register + 65) as u8) as char)
    } else {
        None
    }
}

pub fn name_of_register(register: u32) -> (result: Option<char>)
    ensures
        result == spec_name_of_register(register),
{
    if register < 26 {
        Some(((register as u8) + 65u8) as char)
    } else {
        None
    }
}

pub fn register_with_name(name: char) -> (result: Option<u32>)
    ensures
        result == spec_register_with_name(name),
        result matches Some(index) ==> index < NUM_REGISTERS,
{
    if name >= 'A' && name <= 'Z' {
        Some(name as u32 - 65)
    } else {
        None
    }
}

/// Names and registers correspond one to one: each register below `26` has a
/// letter, and that letter names the register again.
pub proof fn lemma_register_names_round_trip(register: u32, name: char)
    ensures
        register < 26 ==> (spec_name_of_register(register) matches Some(letter)
            && spec_register_with_name(letter) == Some(register)),
        spec_register_with_name(name) matches Some(index) ==> spec_name_of_register(index)
            == Some(name),
{
    if register < 26 {
        assert((((register + 65) as u8) as char) as u32 == register + 65);
    }
    if 'A' <= name <= 'Z' {
        let index = (name as u32 - 65) as u32;
        assert((((index + 65) as u8) as char) as u32 == name as u32);
    }
}

/// The column a register is shown in.
pub open spec fn spec_column_of_register(register: u32) -> usize {
    if 3 <= register < 8 {
        2
    } else if 8 <= register < 13 {
        1
    } else if 20 <= register < 26 {
        0
    } else {
        3
    }
}

pub fn column_of_register(register: u32) -> (result: usize)
    ensures
        result == spec_column_of_register(register),
{
    if 3 <= register && register < 8 {
        2
    } else if 8 <= register && register < 13 {
        1
    } else if 20 <= register && register < 26 {
        0
    } else {
        3
    }
}


#[derive(Clone, Copy, Debug)]
pub struct RegisterMap<T>(pub [T; 26]);

impl<T: Copy> RegisterMap<T> {
    pub fn from_element(element: T) -> (result: Self)
        ensures
            forall|i: int| 0 <= i < NUM_REGISTERS ==> #[trigger] result.0@[i] == element,
    {
        RegisterMap([element; 26])
    }

    pub fn with_value(self, register_name: char, value: T) -> (result: Self)
        requires
            'A' <= register_name <= 'Z',
        ensures
            result.0@ == self.0@.update(
                spec_register_with_name(register_name).unwrap() as int,
                value,
            ),
    {
        let mut result = self;
        let index = register_with_name(register_name).unwrap();
        result.0[index as usize] = value;
        result
    }
}

impl Default for RegisterSet {
    fn default() -> (result: Self)
        ensures
            result.spec_registers() == Seq::new(NUM_REGISTERS as nat, |i: int| None::<RegisterView>),
            result.spec_buffered_writes() == Seq::<(u32, Integer)>::empty(),
            result.wf(),
    {
        Self::new_empty()
    }
}


/// Registers hold a register at exactly the same positions.
pub open spec fn spec_same_presence(a: Seq<Option<RegisterView>>, b: Seq<Option<RegisterView>>) -> bool {
    &&& a.len() == b.len()
    &&& forall|i: int| 0 <= i < a.len() ==> (#[trigger] a[i] is Some <==> b[i] is Some)
}

/// Every register after one tick.
pub open spec fn spec_registers_after_tick(registers: Seq<Option<RegisterView>>) -> Seq<Option<RegisterView>> {
    registers.map_values(
        |register: Option<RegisterView>| match register {
            Some(register) => Some(register.after_tick()),
            None => None,
        },
    )
}

/// A write moves no register in or out of the set.
pub proof fn lemma_write_keeps_presence(registers: Seq<Option<RegisterView>>, index: u32, value: Integer)
    ensures
        spec_same_presence(registers, spec_write(registers, index, value).0),
{
    let after = spec_write(registers, index, value).0;
    assert forall|i: int| 0 <= i < registers.len() implies (#[trigger] registers[i] is Some <==> after[i] is Some) by {
        if let Some(register) = spec_lookup(registers, index) {
            if let Ok(current) = register.values.selected() {
                let written = spec_store_selected(registers, index, register, current, value);
                assert(written[i] is Some <==> registers[i] is Some);
            }
        }
    }
}

/// Applying writes moves no register in or out of the set.
pub proof fn lemma_writes_keep_presence(registers: Seq<Option<RegisterView>>, writes: Seq<(u32, Integer)>)
    ensures
        spec_same_presence(registers, spec_apply_writes(registers, writes)),
    decreases writes.len(),
{
    if writes.len() > 0 {
        let after = spec_write(registers, writes[0].0, writes[0].1).0;
        lemma_write_keeps_presence(registers, writes[0].0, writes[0].1);
        lemma_writes_keep_presence(after, writes.drop_first());
    }
}

/// A write that passed its check on well-formed registers succeeds.
pub proof fn lemma_checked_write_succeeds(registers: Seq<Option<RegisterView>>, index: u32, value: Integer)
    requires
        spec_registers_wf(registers),
        spec_buffered_write_check(registers, index, value) is Ok,
    ensures
        spec_write(registers, index, value).1 is Ok,
        spec_writes_succeed(registers, seq![(index, value)]),
{
    let register = spec_lookup(registers, index).unwrap();
    let current = register.values.selected().unwrap();
    let written = spec_store_selected(registers, index, register, current, value);
    if let Some(array) = register.indexes_array {
        assert(registers[index as int] == Some(register));
        assert(written[array as int] is Some);
    }
    let after = spec_write(registers, index, value).0;
    assert(seq![(index, value)].drop_first() =~= Seq::<(u32, Integer)>::empty());
    assert(spec_writes_succeed(after, Seq::<(u32, Integer)>::empty()));
    assert(seq![(index, value)][0] == (index, value));
}

/// A tick only counts blocks down: every register stays where it is, with
/// the same values, so the same writes pass their checks.
pub proof fn lemma_tick_keeps_registers(registers: Seq<Option<RegisterView>>, index: u32, value: Integer)
    requires
        spec_registers_wf(registers),
    ensures
        spec_same_presence(registers, spec_registers_after_tick(registers)),
        spec_registers_wf(spec_registers_after_tick(registers)),
        spec_buffered_write_check(spec_registers_after_tick(registers), index, value)
            == spec_buffered_write_check(registers, index, value),
{
    let after = spec_registers_after_tick(registers);
    assert forall|i: int| 0 <= i < after.len() implies (#[trigger] after[i] matches Some(
        register,
    ) ==> {
        &&& register.values.wf()
        &&& register.indexes_array matches Some(array) ==> {
            &&& array < NUM_REGISTERS
            &&& after[array as int] matches Some(indexed) && indexed.values is Vector
        }
    }) by {
        if let Some(register) = registers[i] {
            if let Some(array) = register.indexes_array {
                assert(registers[array as int] is Some);
            }
        }
    }
}

/// Every instruction of the program fits its kind's properties and names
/// only registers the set holds.
pub open spec fn spec_program_fits(
    program: Seq<Instruction>,
    instruction_properties: InstructionKindMap<InstructionProperties>,
    registers: Seq<Option<RegisterView>>,
) -> bool {
    forall|i: int|
        #![trigger program[i]]
        0 <= i < program.len() ==> {
            &&& program[i].spec_arguments_match(instruction_properties.spec_get(program[i].kind))
            &&& program[i].spec_registers_present(registers)
        }
}

/// Every instruction of the program fits its kind's properties.
pub open spec fn spec_program_matches(
    program: Seq<Instruction>,
    instruction_properties: InstructionKindMap<InstructionProperties>,
) -> bool {
    forall|i: int|
        #![trigger program[i]]
        0 <= i < program.len() ==> program[i].spec_arguments_match(instruction_properties.spec_get(program[i].kind))
}

/// A computer, as mathematical values.
pub struct ComputerView {
    pub instruction_properties: InstructionKindMap<InstructionProperties>,
    pub registers: Seq<Option<RegisterView>>,
    pub buffered_writes: Seq<(u32, Integer)>,
    pub maximum_digits: u8,
    pub instruction: u32,
    pub block_time: u32,
    pub tick_complete: bool,
    pub next_instruction: u32,
    pub runtime: u64,
    pub energy_used: u64,
    pub executed_instructions: Seq<u8>,
    pub executed_instruction_groups: Seq<u8>,
    pub previous_instruction: Option<(u32, ArgumentValues)>,
    pub interrupt: Option<InstructionEvaluationInterrupt>,
}

/// A count of zero for every instruction kind.
pub open spec fn spec_zero_counts() -> Seq<u8> {
    Seq::new(NUM_INSTRUCTION_KINDS as nat, |i: int| 0u8)
}

/// A fresh computer: nothing run yet, the first instruction next.
pub open spec fn spec_new_computer(
    maximum_digits: u8,
    registers: Seq<Option<RegisterView>>,
    buffered_writes: Seq<(u32, Integer)>,
    instruction_properties: InstructionKindMap<InstructionProperties>,
) -> ComputerView {
    ComputerView {
        instruction_properties,
        registers,
        buffered_writes,
        maximum_digits,
        instruction: 0,
        block_time: 0,
        tick_complete: false,
        next_instruction: 0,
        runtime: 0,
        energy_used: 0,
        executed_instructions: spec_zero_counts(),
        executed_instruction_groups: spec_zero_counts(),
        previous_instruction: None,
        interrupt: None,
    }
}

/// The end of a tick: the per-tick counts reset, the runtime counts up (or
/// overflows into an interrupt), and every register's block counts down.
pub open spec fn spec_end_of_tick(c: ComputerView) -> ComputerView {
    let overflow = c.runtime == u64::MAX;
    ComputerView {
        executed_instructions: spec_zero_counts(),
        executed_instruction_groups: spec_zero_counts(),
        runtime: if overflow { c.runtime } else { (c.runtime + 1) as u64 },
        interrupt: if overflow { Some(InstructionEvaluationInterrupt::RuntimeCounterOverflow) } else { c.interrupt },
        previous_instruction: if overflow { None } else { c.previous_instruction },
        registers: spec_registers_after_tick(c.registers),
        ..c
    }
}

/// The end of every cycle that ran: once no block is left the next
/// instruction becomes current and the buffered writes land; a complete tick
/// then ends.
pub open spec fn spec_finish_cycle(c: ComputerView) -> ComputerView {
    let landed = if c.block_time == 0 {
        ComputerView {
            instruction: c.next_instruction,
            registers: spec_apply_writes(c.registers, c.buffered_writes),
            buffered_writes: Seq::empty(),
            ..c
        }
    } else {
        c
    };
    if landed.tick_complete {
        spec_end_of_tick(landed)
    } else {
        landed
    }
}

/// The previous instruction of the program with its argument values.
pub open spec fn spec_previous_of(
    program: Seq<Instruction>,
    previous_instruction: Option<(u32, ArgumentValues)>,
) -> Option<(Instruction, ArgumentValues)> {
    match previous_instruction {
        Some((index, values)) => Some((program[index as int], values)),
        None => None,
    }
}

/// One cycle of the computer running `program`: the computer afterwards, and
/// whether anything ran (an instruction, a cycle spent blocked, or the halt).
#[verifier::opaque]
pub open spec fn spec_step_cycle(c: ComputerView, program: Seq<Instruction>) -> (ComputerView, bool) {
    let c = ComputerView { tick_complete: true, ..c };
    if c.interrupt is Some {
        (c, false)
    } else if c.block_time > 0 {
        (spec_finish_cycle(ComputerView { block_time: (c.block_time - 1) as u32, ..c }), true)
    } else if c.next_instruction >= program.len() {
        (
            spec_finish_cycle(
                ComputerView {
                    interrupt: Some(InstructionEvaluationInterrupt::ProgramComplete),
                    previous_instruction: None,
                    ..c
                },
            ),
            true,
        )
    } else {
        let instruction = program[c.next_instruction as int];
        let previous = spec_previous_of(program, c.previous_instruction);
        let kind = instruction.kind.spec_index();
        let group = instruction.spec_group(c.instruction_properties, previous).spec_index();
        if c.instruction_properties.spec_get(instruction.kind).calls_per_tick_limit matches Some(limit)
            && c.executed_instruction_groups[group] >= limit {
            (spec_end_of_tick(c), false)
        } else {
            let counted = ComputerView {
                executed_instructions: c.executed_instructions.update(kind, spec_count_up(c.executed_instructions[kind])),
                executed_instruction_groups: c.executed_instruction_groups.update(
                    group,
                    spec_count_up(c.executed_instruction_groups[group]),
                ),
                ..c
            };
            match instruction.spec_evaluate(c.registers, c.instruction_properties, previous, c.runtime) {
                Err(interrupt) => (
                    spec_finish_cycle(
                        ComputerView { interrupt: Some(interrupt), previous_instruction: None, ..counted },
                    ),
                    true,
                ),
                Ok((time, energy, values, update, effect)) => {
                    let evaluated = ComputerView {
                        buffered_writes: match effect.write {
                            Some(write) => c.buffered_writes.push(write),
                            None => c.buffered_writes,
                        },
                        next_instruction: match effect.jump {
                            Some(target) => target,
                            None => (c.next_instruction + 1) as u32,
                        },
                        previous_instruction: if update {
                            Some((c.instruction, values))
                        } else {
                            None
                        },
                        tick_complete: time != 0,
                        block_time: if time > 0 {
                            (time - 1) as u32
                        } else {
                            c.block_time
                        },
                        ..counted
                    };
                    if c.energy_used < u64::MAX {
                        (spec_finish_cycle(ComputerView { energy_used: (c.energy_used + 1) as u64, ..evaluated }), true)
                    } else {
                        (
                            spec_finish_cycle(
                                ComputerView {
                                    interrupt: Some(InstructionEvaluationInterrupt::EnergyCounterOverflow),
                                    previous_instruction: None,
                                    ..evaluated
                                },
                            ),
                            true,
                        )
                    }
                },
            }
        }
    }
}

/// The cycle either evaluates no instruction, or the instruction it evaluates
/// can be evaluated to the end: the times it adds up fit in a `u32`, and an
/// arithmetic result too large for an `Integer` has a destination register to
/// be reported against.
pub open spec fn spec_cycle_evaluable(c: ComputerView, program: Seq<Instruction>) -> bool {
    c.interrupt is None && c.block_time == 0 && c.next_instruction < program.len() ==> {
        let instruction = program[c.next_instruction as int];
        let previous = spec_previous_of(program, c.previous_instruction);
        let group = instruction.spec_group(c.instruction_properties, previous).spec_index();
        let limited = match c.instruction_properties.spec_get(instruction.kind).calls_per_tick_limit {
            Some(limit) => c.executed_instruction_groups[group] >= limit,
            None => false,
        };
        limited || {
            &&& instruction.spec_time_fits(c.registers, c.instruction_properties, previous, c.runtime)
            &&& instruction.spec_overflow_target_present(c.registers, c.instruction_properties)
        }
    }
}

/// A per-tick count after one more call, wrapping around past `u8::MAX`: a
/// tick that makes more than 255 calls of one kind or group starts that count
/// again from zero instead of stopping the run.
pub open spec fn spec_count_up(count: u8) -> u8 {
    if count == u8::MAX {
        0
    } else {
        (count + 1) as u8
    }
}

fn count_up(count: u8) -> (result: u8)
    ensures
        result == spec_count_up(count),
{
    if count == u8::MAX {
        0
    } else {
        count + 1
    }
}


/// A write an evaluation buffers passed its check against the registers it
/// was evaluated on.
pub proof fn lemma_effect_write_checked(
    instruction: Instruction,
    registers: Seq<Option<RegisterView>>,
    values: ArgumentValues,
    runtime: u64,
)
    ensures
        instruction.spec_effect(registers, values, runtime) matches Ok(effect) ==> (effect.write matches Some(
            write,
        ) ==> spec_buffered_write_check(registers, write.0, write.1) is Ok),
{
}

#[derive(Clone, Debug)]
pub struct Computer {
    pub instruction_properties: InstructionKindMap<InstructionProperties>,
    pub registers: RegisterSet,
    pub maximum_digits: u8,
    pub instruction: u32,
    pub block_time: u32,
    pub tick_complete: bool,
    pub next_instruction: u32,
    pub runtime: u64,
    pub energy_used: u64,
    pub executed_instructions: InstructionKindMap<u8>,
    pub executed_instruction_groups: InstructionKindMap<u8>,
    pub previous_instruction: Option<(u32, ArgumentValues)>,
    pub interrupt: Option<InstructionEvaluationInterrupt>,
}

impl View for Computer {
    type V = ComputerView;

    open spec fn view(&self) -> ComputerView {
        ComputerView {
            instruction_properties: self.instruction_properties,
            registers: self.registers.spec_registers(),
            buffered_writes: self.registers.spec_buffered_writes(),
            maximum_digits: self.maximum_digits,
            instruction: self.instruction,
            block_time: self.block_time,
            tick_complete: self.tick_complete,
            next_instruction: self.next_instruction,
            runtime: self.runtime,
            energy_used: self.energy_used,
            executed_instructions: self.executed_instructions.0@,
            executed_instruction_groups: self.executed_instruction_groups.0@,
            previous_instruction: self.previous_instruction,
            interrupt: self.interrupt,
        }
    }
}

impl Computer {
    /// The computer's state is one it can run from: well-formed registers and
    /// instruction table, and at most one buffered write, which passed its
    /// check, pending only while the computer is blocked.
    pub open spec fn wf(self) -> bool {
        let writes = self.registers.spec_buffered_writes();
        &&& self.registers.wf()
        &&& spec_instruction_table_wf(self.instruction_properties)
        &&& writes.len() <= 1
        &&& writes.len() == 1 ==> spec_buffered_write_check(
            self.registers.spec_registers(),
            writes[0].0,
            writes[0].1,
        ) is Ok
        &&& self.block_time == 0 ==> writes.len() == 0 && self.instruction == self.next_instruction
    }

    /// The computer can run `program`: each instruction fits it, and the
    /// previous instruction it remembers is one of the program's.
    pub open spec fn spec_runs(self, program: Seq<Instruction>) -> bool {
        &&& program.len() <= u32::MAX
        &&& spec_program_matches(program, self.instruction_properties)
        &&& self.previous_instruction matches Some((index, _)) ==> index < program.len()
    }

    pub fn new(
        maximum_digits: u8,
        registers: RegisterSet,
        instruction_properties: InstructionKindMap<InstructionProperties>,
    ) -> (result: Self)
        ensures
            result@ == spec_new_computer(
                maximum_digits,
                registers.spec_registers(),
                registers.spec_buffered_writes(),
                instruction_properties,
            ),
            registers.wf() && spec_instruction_table_wf(instruction_properties)
                && registers.spec_buffered_writes().len() == 0 ==> result.wf(),
    {
        Self {
            instruction_properties,
            registers,
            maximum_digits,
            instruction: 0,
            block_time: 0,
            tick_complete: false,
            next_instruction: 0,
            runtime: 0,
            energy_used: 0,
            executed_instructions: InstructionKindMap::from_element(0),
            executed_instruction_groups: InstructionKindMap::from_element(0),
            previous_instruction: None,
            interrupt: None,
        }
    }

    /// Starts over: every register is zeroed and no write is pending; the
    /// computer keeps its registers' layout, its digit limit and its
    /// instruction table.
    pub fn reset(&mut self)
        requires
            old(self).registers.wf(),
        ensures
            final(self)@ == spec_new_computer(
                old(self).maximum_digits,
                old(self).registers.spec_registers().map_values(
                    |register: Option<RegisterView>| match register {
                        Some(register) => Some(register.zeroed()),
                        None => None,
                    },
                ),
                Seq::empty(),
                old(self).instruction_properties,
            ),
            spec_instruction_table_wf(old(self).instruction_properties) ==> final(self).wf(),
    {
        let mut registers = RegisterSet::new_empty();
        std::mem::swap(&mut registers, &mut self.registers);
        registers.reset_to_zero();

        let instruction_properties = self.instruction_properties;

        *self = Computer::new(self.maximum_digits, registers, instruction_properties);
    }

    fn end_of_tick(&mut self)
        requires
            old(self).registers.wf(),
        ensures
            final(self)@ == spec_end_of_tick(old(self)@),
            final(self).registers.wf(),
            final(self).next_instruction == old(self).next_instruction,
    {
        self.executed_instructions = InstructionKindMap::from_element(0);
        self.executed_instruction_groups = InstructionKindMap::from_element(0);

        match self.runtime.checked_add(1) {
            Some(runtime) => self.runtime = runtime,
            None => {
                self.interrupt = Some(InstructionEvaluationInterrupt::RuntimeCounterOverflow);
                self.previous_instruction = None;
            },
        }

        self.registers.tick();
    }
}

impl RegisterSet {
    /// Ends a tick for every register: each pending block counts down.
    fn tick(&mut self)
        requires
            old(self).wf(),
        ensures
            final(self).spec_registers() == spec_registers_after_tick(old(self).spec_registers()),
            final(self).spec_buffered_writes() == old(self).spec_buffered_writes(),
            final(self).wf(),
    {
        let ghost registers0 = self.registers@;
        let mut i: usize = 0;
        while i < self.registers.len()
            invariant
                self.registers@.len() == registers0.len() == NUM_REGISTERS,
                0 <= i <= NUM_REGISTERS,
                self.buffered_writes@ == old(self).buffered_writes@,
                forall|j: int|
                    0 <= j < i ==> optional_view(#[trigger] self.registers@[j]) == match optional_view(
                        registers0[j],
                    ) {
                        Some(register) => Some(register.after_tick()),
                        None => None,
                    },
                forall|j: int| i <= j < NUM_REGISTERS ==> #[trigger] self.registers@[j] == registers0[j],
            decreases NUM_REGISTERS - i,
        {
            let mut entry: Option<Register> = None;
            std::mem::swap(&mut self.registers[i], &mut entry);
            if let Some(mut register) = entry {
                register.end_of_tick();
                entry = Some(register);
            }
            std::mem::swap(&mut self.registers[i], &mut entry);
            i += 1;
        }
        assert(self.spec_registers() =~= spec_registers_after_tick(
            registers0.map_values(|register: Option<Register>| optional_view(register)),
        ));
        proof {
            lemma_tick_keeps_registers(old(self).spec_registers(), 0, 0);
        }
    }
}

impl Computer {
    /// Lands the buffered writes once no block is left, and ends a complete
    /// tick.
    fn finish_cycle(&mut self)
        requires
            old(self).registers.wf(),
            old(self).registers.spec_buffered_writes().len() <= 1,
            old(self).registers.spec_buffered_writes().len() == 1 ==> spec_buffered_write_check(
                old(self).registers.spec_registers(),
                old(self).registers.spec_buffered_writes()[0].0,
                old(self).registers.spec_buffered_writes()[0].1,
            ) is Ok,
        ensures
            final(self)@ == spec_finish_cycle(old(self)@),
            final(self).registers.wf(),
            spec_same_presence(old(self).registers.spec_registers(), final(self).registers.spec_registers()),
    {
        let ghost registers0 = self.registers.spec_registers();
        let ghost writes0 = self.registers.spec_buffered_writes();
        if self.block_time == 0 {
            self.instruction = self.next_instruction;
            proof {
                if writes0.len() == 1 {
                    lemma_checked_write_succeeds(registers0, writes0[0].0, writes0[0].1);
                    assert(writes0 =~= seq![(writes0[0].0, writes0[0].1)]);
                }
                lemma_writes_keep_presence(registers0, writes0);
            }
            self.registers.apply_buffered_writes();
        }
        let ghost registers1 = self.registers.spec_registers();
        if self.tick_complete {
            proof {
                lemma_tick_keeps_registers(registers1, 0, 0);
            }
            self.end_of_tick();
        }
    }

    /// Runs one cycle of `program`. Returns whether or not there was any
    /// operation run (includes time spent blocking).
    ///
    /// The counts of calls made this tick wrap around past `u8::MAX` (see
    /// `spec_count_up`).
    pub fn step_cycle(&mut self, program: &Program) -> (result: bool)
        requires
            old(self).wf(),
            old(self).spec_runs(program.instructions@),
            spec_cycle_evaluable(old(self)@, program.instructions@),
        ensures
            final(self).wf(),
            final(self).spec_runs(program.instructions@),
            (final(self)@, result) == spec_step_cycle(old(self)@, program.instructions@),
    {
        let ghost c0 = self@;
        let ghost prog = program.instructions@;
        proof {
            reveal(spec_step_cycle);
        }
        self.tick_complete = true;

        if self.interrupt.is_some() {
            return false;
        }

        if self.block_time > 0 {
            self.block_time -= 1;
        } else {
            let next = self.next_instruction as usize;
            if next < program.instructions.len() {
                let instruction = &program.instructions[next];
                let previous_instruction: Option<(&Instruction, &ArgumentValues)> = match &self.previous_instruction {
                    Some((index, argument_values)) => Some(
                        (&program.instructions[*index as usize], argument_values),
                    ),
                    None => None,
                };
                proof {
                    assert(spec_previous(previous_instruction) == spec_previous_of(prog, c0.previous_instruction));
                    assert(prog[next as int] == *instruction);
                }

                let properties = self.instruction_properties.get(instruction.kind);
                let limit = properties.calls_per_tick_limit;
                let group = instruction.group(&self.instruction_properties, previous_instruction);

                if let Some(limit) = limit {
                    if *self.executed_instruction_groups.get(group) >= limit {
                        proof {
                            lemma_tick_keeps_registers(self.registers.spec_registers(), 0, 0);
                        }
                        self.end_of_tick();
                        return false;
                    }
                }

                let count = count_up(*self.executed_instructions.get(instruction.kind));
                self.executed_instructions.set(instruction.kind, count);
                let count = count_up(*self.executed_instruction_groups.get(group));
                self.executed_instruction_groups.set(group, count);

                proof {
                    assert(prog[next as int].spec_arguments_match(self.instruction_properties.spec_get(instruction.kind)));
                    lemma_effect_write_checked(
                        *instruction,
                        self.registers.spec_registers(),
                        match instruction.spec_read_arguments(
                            self.registers.spec_registers(),
                            self.instruction_properties.spec_get(instruction.kind),
                        ) {
                            Ok((values, _)) => values,
                            Err(_) => [None, None, None],
                        },
                        self.runtime,
                    );
                }

                match instruction.evaluate(
                    &mut self.registers,
                    &self.instruction_properties,
                    previous_instruction,
                    &mut self.next_instruction,
                    self.runtime,
                ) {
                    Ok((time, _energy, argument_values, update_previous_instruction)) => {
                        self.previous_instruction = if update_previous_instruction {
                            Some((self.instruction, argument_values))
                        } else {
                            None
                        };

                        if time == 0 {
                            self.tick_complete = false;
                        } else {
                            self.block_time = time - 1;
                        }

                        match self.energy_used.checked_add(1) {
                            Some(energy_used) => self.energy_used = energy_used,
                            None => {
                                self.interrupt = Some(InstructionEvaluationInterrupt::EnergyCounterOverflow);
                                self.previous_instruction = None;
                            },
                        }
                    },
                    Err(interrupt) => {
                        self.interrupt = Some(interrupt);
                        self.previous_instruction = None;
                    },
                }
            } else {
                self.interrupt = Some(InstructionEvaluationInterrupt::ProgramComplete);
                self.previous_instruction = None;
            }
        }

        self.finish_cycle();

        true
    }
}

/// The computer after `n` cycles of `program`.
pub open spec fn spec_cycles(c: ComputerView, program: Seq<Instruction>, n: nat) -> ComputerView
    decreases n,
{
    if n == 0 {
        c
    } else {
        spec_step_cycle(spec_cycles(c, program, (n - 1) as nat), program).0
    }
}

/// The cycles up to and including number `k` (counting from zero) all start
/// a tick that is still running: none is interrupted, and none after the first
/// starts from a completed tick.
pub open spec fn spec_tick_reaches(c: ComputerView, program: Seq<Instruction>, k: nat) -> bool {
    forall|j: nat|
        j <= k ==> (#[trigger] spec_cycles(c, program, j)).interrupt is None && (j == 0
            || !spec_cycles(c, program, j).tick_complete)
}

/// Every cycle that running to the end of the tick evaluates can be evaluated
/// to the end (see `spec_cycle_evaluable`).
pub open spec fn spec_tick_evaluable(c: ComputerView, program: Seq<Instruction>) -> bool {
    forall|k: nat|
        #[trigger] spec_tick_reaches(c, program, k) ==> spec_cycle_evaluable(spec_cycles(c, program, k), program)
}

/// The cycles up to and including number `k` (counting from zero) all start
/// before an instruction has run to completion: none is interrupted, and no
/// earlier cycle ran something and left the computer unblocked.
pub open spec fn spec_instruction_reaches(c: ComputerView, program: Seq<Instruction>, k: nat) -> bool {
    forall|j: nat|
        j <= k ==> (#[trigger] spec_cycles(c, program, j)).interrupt is None && !(spec_cycle_ran(c, program, j)
            && spec_cycles(c, program, j).block_time == 0)
}

/// Every cycle that running to the end of the instruction evaluates can be
/// evaluated to the end (see `spec_cycle_evaluable`).
pub open spec fn spec_instruction_evaluable(c: ComputerView, program: Seq<Instruction>) -> bool {
    forall|k: nat|
        #[trigger] spec_instruction_reaches(c, program, k) ==> spec_cycle_evaluable(
            spec_cycles(c, program, k),
            program,
        )
}

/// Whether cycle number `n` (counting from one) ran anything.
pub open spec fn spec_cycle_ran(c: ComputerView, program: Seq<Instruction>, n: nat) -> bool {
    n > 0 && spec_step_cycle(spec_cycles(c, program, (n - 1) as nat), program).1
}

/// How many of the first `n` cycles completed a tick.
pub open spec fn spec_ticks_completed(c: ComputerView, program: Seq<Instruction>, n: nat) -> nat
    decreases n,
{
    if n == 0 {
        0
    } else {
        spec_ticks_completed(c, program, (n - 1) as nat) + if spec_cycles(c, program, n).tick_complete {
            1nat
        } else {
            0nat
        }
    }
}

/// What one cycle does to the counters that bound how long a run takes.
pub proof fn lemma_cycle_cases(c: ComputerView, program: Seq<Instruction>)
    requires
        c.interrupt is None,
        spec_instruction_table_wf(c.instruction_properties),
        c.executed_instruction_groups.len() == NUM_INSTRUCTION_KINDS,
    ensures
        ({
            let (after, ran) = spec_step_cycle(c, program);
            &&& after.energy_used == c.energy_used || (c.energy_used < u64::MAX && after.energy_used
                == c.energy_used + 1)
            &&& after.executed_instruction_groups.len() == NUM_INSTRUCTION_KINDS
            &&& c.block_time > 0 ==> {
                &&& ran
                &&& after.block_time == c.block_time - 1
                &&& after.energy_used == c.energy_used
                &&& after.tick_complete
                &&& after.executed_instruction_groups == spec_zero_counts()
            }
            &&& c.block_time == 0 && !ran ==> {
                &&& after.block_time == 0
                &&& after.energy_used == c.energy_used
                &&& after.tick_complete
                &&& after.executed_instruction_groups == spec_zero_counts()
                &&& c.executed_instruction_groups != spec_zero_counts()
            }
            &&& after.energy_used == c.energy_used + 1 ==> c.block_time == 0
            &&& !after.tick_complete ==> {
                &&& ran
                &&& after.block_time == 0
                &&& (after.energy_used == c.energy_used + 1 || after.interrupt is Some)
            }
            &&& c.block_time == 0 && ran && after.block_time > 0 ==> (after.energy_used == c.energy_used
                + 1 || after.interrupt is Some)
        }),
{
    reveal(spec_step_cycle);
    if c.block_time == 0 && c.next_instruction < program.len() {
        let instruction = program[c.next_instruction as int];
        let previous = spec_previous_of(program, c.previous_instruction);
        let group = instruction.spec_group(c.instruction_properties, previous);
        let properties = c.instruction_properties.spec_get(instruction.kind);
        if properties.calls_per_tick_limit matches Some(limit) && c.executed_instruction_groups[group.spec_index()] >= limit {
            assert(c.instruction_properties.spec_get(instruction.kind).wf_for(instruction.kind));
            assert(c.executed_instruction_groups[group.spec_index()] != spec_zero_counts()[group.spec_index()]);
        }
    }
}

/// One cycle of an uninterrupted computer adds a tick to its runtime exactly
/// when it completes a tick, unless the runtime counter is already full, in
/// which case the cycle interrupts it instead. A cycle that interrupts the
/// computer completes its tick, unless the energy counter overflowed on an
/// instruction that took no time.
pub proof fn lemma_cycle_runtime(c: ComputerView, program: Seq<Instruction>)
    requires
        c.interrupt is None,
    ensures
        ({
            let after = spec_step_cycle(c, program).0;
            &&& after.runtime == if after.tick_complete && c.runtime < u64::MAX {
                c.runtime + 1
            } else {
                c.runtime as int
            }
            &&& after.tick_complete && c.runtime == u64::MAX ==> after.interrupt == Some(
                InstructionEvaluationInterrupt::RuntimeCounterOverflow,
            )
            &&& after.interrupt is Some && after.interrupt != Some(
                InstructionEvaluationInterrupt::EnergyCounterOverflow,
            ) ==> after.tick_complete
        }),
{
    reveal(spec_step_cycle);
}

/// Every time setting of the computer, in its registers and in its
/// instruction table, is at most `bound` ticks.
pub open spec fn spec_times_within(c: ComputerView, bound: int) -> bool {
    &&& spec_registers_times_within(c.registers, bound)
    &&& spec_table_times_within(c.instruction_properties, bound)
}

/// A tick only counts blocks down, so it keeps every time setting within
/// `bound`.
proof fn lemma_after_tick_keeps_times(registers: Seq<Option<RegisterView>>, bound: int)
    requires
        spec_registers_times_within(registers, bound),
    ensures
        spec_registers_times_within(spec_registers_after_tick(registers), bound),
{
    let after = spec_registers_after_tick(registers);
    assert forall|i: int| 0 <= i < after.len() implies (#[trigger] after[i] matches Some(register)
        ==> spec_register_times_within(register, bound)) by {
        assert(registers[i] matches Some(register) ==> spec_register_times_within(register, bound));
    }
}

/// Finishing a cycle keeps every time setting within `bound`.
proof fn lemma_finish_cycle_keeps_times(c: ComputerView, bound: int)
    requires
        spec_registers_times_within(c.registers, bound),
    ensures
        spec_registers_times_within(spec_finish_cycle(c).registers, bound),
        spec_registers_times_within(spec_end_of_tick(c).registers, bound),
{
    lemma_apply_writes_keeps_times(c.registers, c.buffered_writes, bound);
    lemma_after_tick_keeps_times(c.registers, bound);
    lemma_after_tick_keeps_times(spec_apply_writes(c.registers, c.buffered_writes), bound);
}

/// A cycle keeps every time setting of the computer within `bound`.
proof fn lemma_cycle_keeps_times(c: ComputerView, program: Seq<Instruction>, bound: int)
    requires
        spec_times_within(c, bound),
    ensures
        spec_times_within(spec_step_cycle(c, program).0, bound),
{
    assert forall|d: ComputerView|
        #![trigger spec_finish_cycle(d)]
        #![trigger spec_end_of_tick(d)]
        d.registers == c.registers implies {
            &&& spec_registers_times_within(spec_finish_cycle(d).registers, bound)
            &&& spec_registers_times_within(spec_end_of_tick(d).registers, bound)
        } by {
        lemma_finish_cycle_keeps_times(d, bound);
    }
    reveal(spec_step_cycle);
}

/// The computer after any number of cycles keeps every time setting within
/// `bound`.
proof fn lemma_cycles_keep_times(c: ComputerView, program: Seq<Instruction>, n: nat, bound: int)
    requires
        spec_times_within(c, bound),
    ensures
        spec_times_within(spec_cycles(c, program, n), bound),
    decreases n,
{
    if n > 0 {
        lemma_cycles_keep_times(c, program, (n - 1) as nat, bound);
        lemma_cycle_keeps_times(spec_cycles(c, program, (n - 1) as nat), program, bound);
    }
}

/// Registers present in one set and in a second are present in a third when
/// the second and third hold the same registers.
proof fn lemma_same_presence_chain(
    a: Seq<Option<RegisterView>>,
    b: Seq<Option<RegisterView>>,
    c: Seq<Option<RegisterView>>,
)
    requires
        spec_same_presence(a, b),
        spec_same_presence(b, c),
    ensures
        spec_same_presence(a, c),
{
    assert forall|i: int| 0 <= i < a.len() implies (#[trigger] a[i] is Some <==> c[i] is Some) by {
        assert(a[i] is Some <==> b[i] is Some);
        assert(b[i] is Some <==> c[i] is Some);
    }
}

/// Finishing a cycle, or ending a tick, moves no register in or out of the
/// set.
proof fn lemma_finish_cycle_keeps_presence(c: ComputerView)
    ensures
        spec_same_presence(c.registers, spec_finish_cycle(c).registers),
        spec_same_presence(c.registers, spec_end_of_tick(c).registers),
{
    let written = spec_apply_writes(c.registers, c.buffered_writes);
    lemma_writes_keep_presence(c.registers, c.buffered_writes);
    assert(spec_same_presence(c.registers, spec_registers_after_tick(c.registers)));
    assert(spec_same_presence(written, spec_registers_after_tick(written)));
    lemma_same_presence_chain(c.registers, written, spec_registers_after_tick(written));
    assert(spec_same_presence(c.registers, c.registers));
}

/// A cycle moves no register in or out of the set.
proof fn lemma_cycle_keeps_presence(c: ComputerView, program: Seq<Instruction>)
    ensures
        spec_same_presence(c.registers, spec_step_cycle(c, program).0.registers),
{
    assert forall|d: ComputerView|
        #![trigger spec_finish_cycle(d)]
        #![trigger spec_end_of_tick(d)]
        d.registers == c.registers implies {
            &&& spec_same_presence(c.registers, spec_finish_cycle(d).registers)
            &&& spec_same_presence(c.registers, spec_end_of_tick(d).registers)
        } by {
        lemma_finish_cycle_keeps_presence(d);
    }
    assert(spec_same_presence(c.registers, c.registers));
    reveal(spec_step_cycle);
}

/// Any number of cycles moves no register in or out of the set.
proof fn lemma_cycles_keep_presence(c: ComputerView, program: Seq<Instruction>, n: nat)
    ensures
        spec_same_presence(c.registers, spec_cycles(c, program, n).registers),
    decreases n,
{
    if n == 0 {
        assert(spec_same_presence(c.registers, c.registers));
    } else {
        let before = spec_cycles(c, program, (n - 1) as nat);
        lemma_cycles_keep_presence(c, program, (n - 1) as nat);
        lemma_cycle_keeps_presence(before, program);
        lemma_same_presence_chain(c.registers, before.registers, spec_cycles(c, program, n).registers);
    }
}

/// A computer whose time settings, in its registers and its instruction
/// table, are all at most `2^28` ticks, running a program that names only
/// registers it holds, can evaluate every instruction to the end: every cycle
/// it runs is evaluable, so it can run any number of ticks and instructions.
pub proof fn lemma_short_times_always_evaluable(c: ComputerView, program: Seq<Instruction>)
    requires
        spec_times_within(c, 0x1000_0000),
        forall|i: int| 0 <= i < program.len() ==> (#[trigger] program[i]).spec_registers_present(c.registers),
    ensures
        forall|n: nat| spec_cycle_evaluable(#[trigger] spec_cycles(c, program, n), program),
        spec_tick_evaluable(c, program),
        spec_instruction_evaluable(c, program),
{
    assert forall|n: nat| spec_cycle_evaluable(#[trigger] spec_cycles(c, program, n), program) by {
        lemma_cycles_keep_times(c, program, n, 0x1000_0000);
        lemma_cycles_keep_presence(c, program, n);
        let d = spec_cycles(c, program, n);
        if d.interrupt is None && d.block_time == 0 && d.next_instruction < program.len() {
            let instruction = program[d.next_instruction as int];
            instruction.lemma_short_times_fit(
                d.registers,
                d.instruction_properties,
                spec_previous_of(program, d.previous_instruction),
                d.runtime,
            );
            assert(instruction.spec_registers_present(c.registers));
            if let Some(register) = instruction.arguments@[2].spec_as_register() {
                assert(instruction.arguments@[2].spec_number_sources()[0] == NumberSource::Register(register));
                assert(spec_lookup(c.registers, register) is Some);
                assert(c.registers[register as int] is Some);
                assert(spec_lookup(d.registers, register) is Some);
            }
        }
    }
}

impl Computer {
    /// Runs cycles until a tick completes or the computer is interrupted.
    pub fn step_tick(&mut self, program: &Program)
        requires
            old(self).wf(),
            old(self).spec_runs(program.instructions@),
            spec_tick_evaluable(old(self)@, program.instructions@),
        ensures
            final(self).wf(),
            final(self).spec_runs(program.instructions@),
            exists|n: nat|
                {
                    &&& final(self)@ == spec_cycles(old(self)@, program.instructions@, n)
                    &&& forall|k: nat|
                        k < n ==> (#[trigger] spec_cycles(old(self)@, program.instructions@, k)).interrupt is None
                            && (k == 0 || !spec_cycles(old(self)@, program.instructions@, k).tick_complete)
                    &&& final(self).interrupt is Some || (n > 0 && final(self).tick_complete)
                },
        final(self).interrupt != Some(InstructionEvaluationInterrupt::RuntimeCounterOverflow) ==> final(self).runtime
                == old(self).runtime + if old(self).interrupt is None && final(self).tick_complete {
                1int
            } else {
                0int
            },
        old(self).interrupt is None && final(self).interrupt is Some && final(self).interrupt != Some(
                InstructionEvaluationInterrupt::EnergyCounterOverflow,
            ) ==> final(self).tick_complete,
    {
        let ghost c0 = self@;
        let ghost prog = program.instructions@;
        let ghost mut n: nat = 0;
        while self.interrupt.is_none()
            invariant_except_break
                self.interrupt is None ==> (n == 0 || !self.tick_complete),
            invariant
                self.wf(),
                self.spec_runs(prog),
                prog == program.instructions@,
                spec_tick_evaluable(c0, prog),
                n > 0 && self.interrupt is Some && self.interrupt != Some(
                    InstructionEvaluationInterrupt::EnergyCounterOverflow,
                ) ==> self.tick_complete,
                self.interrupt != Some(InstructionEvaluationInterrupt::RuntimeCounterOverflow) ==> self.runtime
                    == c0.runtime + if n > 0 && self.tick_complete {
                    1int
                } else {
                    0int
                },
                self@ == spec_cycles(c0, prog, n),
                forall|k: nat|
                    k < n ==> (#[trigger] spec_cycles(c0, prog, k)).interrupt is None && (k == 0
                        || !spec_cycles(c0, prog, k).tick_complete),
            ensures
                self.interrupt is Some || (n > 0 && self.tick_complete),
            decreases
                2 * (u64::MAX - self.energy_used) + if self.interrupt is None {
                    1int
                } else {
                    0int
                },
        {
            proof {
                lemma_cycle_cases(self@, prog);
                lemma_cycle_runtime(self@, prog);
                assert(spec_tick_reaches(c0, prog, n)) by {
                    assert forall|j: nat| j <= n implies (#[trigger] spec_cycles(c0, prog, j)).interrupt is None
                        && (j == 0 || !spec_cycles(c0, prog, j).tick_complete) by {
                        if j < n {
                            assert(spec_cycles(c0, prog, j).interrupt is None);
                        }
                    }
                }
            }
            let ghost before = self@;
            self.step_cycle(program);
            proof {
                n = n + 1;
                assert(spec_cycles(c0, prog, n) == spec_step_cycle(before, prog).0);
            }

            if self.tick_complete {
                break;
            }
        }
        proof {
            if n > 0 {
                assert(spec_cycles(c0, prog, 0).interrupt is None);
            }
        }
    }

    /// Runs cycles until one runs something and leaves the computer unblocked,
    /// or the computer is interrupted. Returns the amount of ticks taken
    /// during the step.
    pub fn step_instruction(&mut self, program: &Program) -> (result: u64)
        requires
            old(self).wf(),
            old(self).spec_runs(program.instructions@),
            spec_instruction_evaluable(old(self)@, program.instructions@),
        ensures
            final(self).wf(),
            final(self).spec_runs(program.instructions@),
            exists|n: nat|
                {
                    &&& final(self)@ == spec_cycles(old(self)@, program.instructions@, n)
                    &&& result == spec_ticks_completed(old(self)@, program.instructions@, n)
                    &&& forall|k: nat|
                        k < n ==> (#[trigger] spec_cycles(old(self)@, program.instructions@, k)).interrupt is None
                            && !(spec_cycle_ran(old(self)@, program.instructions@, k)
                            && spec_cycles(old(self)@, program.instructions@, k).block_time == 0)
                    &&& final(self).interrupt is Some || (spec_cycle_ran(
                        old(self)@,
                        program.instructions@,
                        n,
                    ) && final(self).block_time == 0)
                },
        final(self).interrupt != Some(InstructionEvaluationInterrupt::RuntimeCounterOverflow) ==> final(self).runtime
                == old(self).runtime + result,
    {
        let ghost c0 = self@;
        let ghost prog = program.instructions@;
        let ghost mut n: nat = 0;
        let mut ticks: u64 = 0;
        while self.interrupt.is_none()
            invariant_except_break
                self.interrupt is None ==> !(spec_cycle_ran(c0, prog, n) && self.block_time == 0),
                self.interrupt is None && self.energy_used == c0.energy_used ==> ticks + self.block_time
                    + if self.executed_instruction_groups.0@ == spec_zero_counts() {
                    0int
                } else {
                    1int
                } <= c0.block_time + 1,
                self.interrupt is None && self.energy_used != c0.energy_used ==> {
                    &&& self.energy_used == c0.energy_used + 1
                    &&& self.block_time > 0
                    &&& ticks + self.block_time <= c0.block_time + u32::MAX + 2
                },
            invariant
                self.wf(),
                self.spec_runs(prog),
                prog == program.instructions@,
                self@ == spec_cycles(c0, prog, n),
                ticks == spec_ticks_completed(c0, prog, n),
                spec_instruction_evaluable(c0, prog),
                self.interrupt != Some(InstructionEvaluationInterrupt::RuntimeCounterOverflow) ==> self.runtime
                    == c0.runtime + ticks,
                self.executed_instruction_groups.0@.len() == NUM_INSTRUCTION_KINDS,
                forall|k: nat|
                    k < n ==> (#[trigger] spec_cycles(c0, prog, k)).interrupt is None && !(spec_cycle_ran(
                        c0,
                        prog,
                        k,
                    ) && spec_cycles(c0, prog, k).block_time == 0),
            ensures
                self.interrupt is Some || (spec_cycle_ran(c0, prog, n) && self.block_time == 0),
            decreases
                2 * (u64::MAX - self.energy_used) + if self.interrupt is None {
                    1int
                } else {
                    0int
                },
                2 * self.block_time + if self.executed_instruction_groups.0@ == spec_zero_counts() {
                    0int
                } else {
                    1int
                },
        {
            proof {
                lemma_cycle_cases(self@, prog);
                lemma_cycle_runtime(self@, prog);
                assert(spec_instruction_reaches(c0, prog, n)) by {
                    assert forall|j: nat| j <= n implies (#[trigger] spec_cycles(c0, prog, j)).interrupt is None
                        && !(spec_cycle_ran(c0, prog, j) && spec_cycles(c0, prog, j).block_time == 0) by {
                        if j < n {
                            assert(spec_cycles(c0, prog, j).interrupt is None);
                        }
                    }
                }
            }
            let ghost before = self@;
            let did_something = self.step_cycle(program);
            proof {
                n = n + 1;
                assert(spec_cycles(c0, prog, n) == spec_step_cycle(before, prog).0);
                assert(spec_cycle_ran(c0, prog, n) == did_something);
            }

            if self.tick_complete {
                ticks += 1;
            }

            if did_something && self.block_time == 0 {
                break;
            }
        }

        ticks
    }
}

/// The most numbers shown for a vector register.
pub const MAXIMUM_NUMBERS: usize = 19;

/// The part of a vector register's values that is shown: the first and past-
/// the-last positions, and whether values are hidden below and above.
pub open spec fn spec_window(length: int, selected: int) -> (int, int, bool, bool) {
    if length <= MAXIMUM_NUMBERS + 2 {
        (0, length, false, false)
    } else if selected <= MAXIMUM_NUMBERS / 2 {
        (0, MAXIMUM_NUMBERS as int, false, true)
    } else if selected >= length - 10 {
        (length - MAXIMUM_NUMBERS, length, true, false)
    } else {
        (selected - MAXIMUM_NUMBERS / 2, selected + 10, true, true)
    }
}

/// One shown value: padded with spaces to its register's width, marked with
/// `>` when it is the selected one.
pub open spec fn spec_cell_text(value: DigitInteger, selected: bool) -> Seq<char> {
    let text = spec_decimal(value.spec_get() as int);
    Seq::new(spec_padding(text.len() as int, value.spec_digits() + 2), |i: int| ' ') + seq![
        if selected {
            '>'
        } else {
            ' '
        },
    ] + text
}

/// The shown values from `start` to `end`, separated by commas; the one at
/// `selected` is marked.
pub open spec fn spec_cells_text(values: Seq<DigitInteger>, start: int, end: int, selected: int) -> Seq<char>
    decreases end - start,
{
    if start >= end {
        Seq::empty()
    } else {
        spec_cells_text(values, start, end - 1, selected) + (if end - 1 > start {
            seq![',']
        } else {
            Seq::<char>::empty()
        }) + spec_cell_text(values[end - 1], end - 1 == selected)
    }
}

/// How a vector register's values are displayed: the shown values, with
/// `...` for hidden ones, then the index.
pub open spec fn spec_vector_text(values: Seq<DigitInteger>, index: Integer, offset: Integer) -> Seq<char> {
    let selected = spec_saturating_sub(index, offset) as int;
    let effective = if selected < 0 {
        0
    } else if selected > values.len() - 1 {
        values.len() - 1
    } else {
        selected
    };
    let (start, end, lower_hidden, upper_hidden) = spec_window(values.len() as int, effective);
    (if lower_hidden {
        "[...,"@
    } else {
        "    ["@
    }) + spec_cells_text(values, start, end, selected) + (if upper_hidden {
        ", ..."@
    } else {
        Seq::<char>::empty()
    }) + seq![']', '['] + spec_decimal(index as int) + seq![']']
}

/// How a register's values are displayed.
pub open spec fn spec_values_text(values: ValuesView) -> Seq<char> {
    match values {
        ValuesView::Scalar(value) => spec_decimal(value.spec_get() as int),
        ValuesView::Vector { values, index, offset } => spec_vector_text(values, index, offset),
    }
}

/// How the register a register indexes is displayed.
pub open spec fn spec_link_text(indexes_array: Option<u32>) -> Seq<char> {
    match indexes_array {
        Some(array) => " → "@ + seq![spec_name_of_register(array).unwrap()],
        None => Seq::<char>::empty(),
    }
}

/// How a running block is displayed.
pub open spec fn spec_block_text(block_time: u32) -> Seq<char> {
    if block_time > 0 {
        "\n(waiting for "@ + spec_decimal(block_time as int) + " tick"@ + (if block_time == 1 {
            Seq::<char>::empty()
        } else {
            seq!['s']
        }) + seq![')']
    } else {
        Seq::<char>::empty()
    }
}

/// How a register is displayed: its value, or its shown values and index;
/// the register it indexes; and any block still running.
pub open spec fn spec_register_text(register: RegisterView) -> Seq<char> {
    spec_values_text(register.values) + spec_link_text(register.indexes_array) + spec_block_text(
        register.block_time,
    )
}

/// A register can be displayed: a vector holds a value, and the register it
/// indexes has a letter.
pub open spec fn spec_displayable(register: RegisterView) -> bool {
    &&& register.values matches ValuesView::Vector { values, .. } ==> values.len() > 0
    &&& register.indexes_array matches Some(array) ==> array < 26
}

/// A value that fits its digits takes at most its digits and a sign.
proof fn lemma_decimal_width(value: DigitInteger)
    requires
        value.accepts(value.spec_get() as int),
    ensures
        spec_decimal(value.spec_get() as int).len() <= value.spec_digits() + 2,
{
    let magnitude = if value.spec_get() < 0 {
        -value.spec_get()
    } else {
        value.spec_get() as int
    };
    lemma_digit_count(magnitude as nat, value.spec_digits() as nat);
}

/// A number no larger than the range of `digits` takes at most `digits + 1`
/// decimal digits.
proof fn lemma_digit_count(n: nat, digits: nat)
    requires
        n <= spec_range_of_digits(digits),
    ensures
        spec_digits_of(n).len() <= digits + 1,
    decreases digits,
{
    if n >= 10 {
        if digits > 0 {
            lemma_digit_count(n / 10, (digits - 1) as nat);
        }
    }
}

/// Appends how a vector register's values are displayed.
#[verifier::spinoff_prover]
#[verifier::rlimit(40)]
fn push_vector(out: &mut Vec<char>, values: &Vec<DigitInteger>, index: Integer, offset: Integer)
    requires
        0 < values@.len() <= i32::MAX,
    ensures
        final(out)@ == old(out)@ + spec_vector_text(values@, index, offset),
{
    let ghost start_text = out@;
    let selected = saturating_sub(index, offset);
    let last = values.len() as Integer - 1;
    let effective: usize = if selected < 0 {
        0
    } else if selected > last {
        last as usize
    } else {
        selected as usize
    };
    let length = values.len();
    let (start, end, lower_hidden, upper_hidden) = if length <= MAXIMUM_NUMBERS + 2 {
        (0, length, false, false)
    } else if effective <= MAXIMUM_NUMBERS / 2 {
        (0, MAXIMUM_NUMBERS, false, true)
    } else if effective >= length - 10 {
        (length - MAXIMUM_NUMBERS, length, true, false)
    } else {
        (effective - MAXIMUM_NUMBERS / 2, effective + 10, true, true)
    };

    if lower_hidden {
        push_str(out, "[...,");
    } else {
        push_str(out, "    [");
    }

    let ghost prefix = out@;
    let mut i = start;
    while i < end
        invariant
            start <= i <= end <= values@.len(),
            values@.len() <= i32::MAX,
            out@ == prefix + spec_cells_text(values@, start as int, i as int, selected as int),
        decreases end - i,
    {
        if i != start {
            out.push(',');
        }
        push_cell(out, values[i], i as Integer == selected);
        proof {
            assert(out@ =~= prefix + spec_cells_text(values@, start as int, i + 1, selected as int));
        }
        i += 1;
    }

    if upper_hidden {
        push_str(out, ", ...");
    }

    out.push(']');
    out.push('[');
    push_decimal(out, index as i128);
    out.push(']');
    proof {
        assert(out@ =~= start_text + spec_vector_text(values@, index, offset));
    }
}

/// Appends one shown value of a vector register.
fn push_cell(out: &mut Vec<char>, value: DigitInteger, selected: bool)
    ensures
        final(out)@ == old(out)@ + spec_cell_text(value, selected),
{
    let mut text: Vec<char> = Vec::new();
    let number = value.get();
    push_decimal(&mut text, number as i128);
    proof {
        lemma_decimal_width(value);
    }
    let width = value.num_digits() + 1;
    let mut padding = text.len();
    let ghost padded = out@;
    while padding < width
        invariant
            text@.len() <= padding <= width || width < text@.len() == padding,
            out@ == padded + Seq::new((padding - text@.len()) as nat, |k: int| ' '),
        decreases width - padding,
    {
        out.push(' ');
        proof {
            assert(out@ =~= padded + Seq::new((padding + 1 - text@.len()) as nat, |k: int| ' '));
        }
        padding += 1;
    }
    if selected {
        out.push('>');
    } else {
        out.push(' ');
    }
    push_chars(out, text.as_slice());
    proof {
        assert(out@ =~= padded + spec_cell_text(value, selected));
    }
}

impl Register {
    /// How the register is displayed.
    pub fn to_display_string(&self) -> (result: String)
        requires
            self@.values.wf(),
            spec_displayable(self@),
        ensures
            result@ == spec_register_text(self@),
    {
        let mut out: Vec<char> = Vec::new();
        self.push_text(&mut out);
        proof {
            assert(out@ =~= spec_register_text(self@));
        }
        string_from_chars(out.as_slice())
    }

    /// Appends how the register is displayed.
    #[verifier::spinoff_prover]
    #[verifier::rlimit(40)]
    pub fn push_text(&self, out: &mut Vec<char>)
        requires
            self@.values.wf(),
            spec_displayable(self@),
        ensures
            final(out)@ == old(out)@ + spec_register_text(self@),
    {
        let ghost start = out@;
        match &self.values {
            RegisterValues::Scalar(value) => push_decimal(out, value.get() as i128),
            RegisterValues::Vector { values, index, offset } => push_vector(out, values, *index, *offset),
        }
        let ghost with_values = out@;
        assert(with_values == start + spec_values_text(self@.values));

        if let Some(array) = self.indexes_array {
            push_str(out, " → ");
            out.push(name_of_register(array).unwrap());
        }
        let ghost with_link = out@;
        assert(with_link =~= with_values + spec_link_text(self.indexes_array));

        if self.block_time > 0 {
            push_str(out, "\n(waiting for ");
            push_decimal(out, self.block_time as i128);
            push_str(out, " tick");
            if self.block_time != 1 {
                out.push('s');
            }
            out.push(')');
        }
        assert(out@ =~= with_link + spec_block_text(self.block_time));
        proof {
            assert(out@ =~= start + spec_register_text(self@));
        }
    }
}

/// How a register set is displayed: a line for each register it holds,
/// `letter: register`.
pub open spec fn spec_register_set_text(registers: Seq<Option<RegisterView>>, count: int) -> Seq<char>
    decreases count,
{
    if count <= 0 {
        Seq::empty()
    } else {
        spec_register_set_text(registers, count - 1) + match registers[count - 1] {
            Some(register) => seq![spec_name_of_register((count - 1) as u32).unwrap(), ':', ' ']
                + spec_register_text(register) + seq!['\n'],
            None => Seq::empty(),
        }
    }
}

impl RegisterSet {
    /// How the register set is displayed.
    pub fn to_display_string(&self) -> (result: String)
        requires
            self.wf(),
            forall|i: int|
                0 <= i < NUM_REGISTERS ==> (#[trigger] self.spec_registers()[i] matches Some(register)
                    ==> spec_displayable(register)),
        ensures
            result@ == spec_register_set_text(self.spec_registers(), NUM_REGISTERS as int),
    {
        let mut out: Vec<char> = Vec::new();
        let mut i: usize = 0;
        while i < self.registers.len()
            invariant
                self.wf(),
                forall|j: int|
                    0 <= j < NUM_REGISTERS ==> (#[trigger] self.spec_registers()[j] matches Some(register)
                        ==> spec_displayable(register)),
                i <= self.registers@.len() == NUM_REGISTERS,
                out@ == spec_register_set_text(self.spec_registers(), i as int),
            decreases NUM_REGISTERS - i,
        {
            proof {
                self.lemma_view_at(i as int);
            }
            if let Some(register) = &self.registers[i] {
                proof {
                    assert(self.spec_registers()[i as int] == Some(register@));
                }
                let ghost before = out@;
                out.push(name_of_register(i as u32).unwrap());
                out.push(':');
                out.push(' ');
                register.push_text(&mut out);
                out.push('\n');
                proof {
                    assert(out@ =~= spec_register_set_text(self.spec_registers(), i + 1));
                }
            }
            i += 1;
        }
        string_from_chars(out.as_slice())
    }
}

/// A buffered write that was accepted lands, once the buffer is applied, as
/// the same write made directly.
pub proof fn lemma_buffered_write_lands(registers: Seq<Option<RegisterView>>, index: u32, value: Integer)
    requires
        spec_registers_wf(registers),
        spec_buffered_write_check(registers, index, value) is Ok,
    ensures
        spec_writes_succeed(registers, seq![(index, value)]),
        spec_apply_writes(registers, seq![(index, value)]) == spec_write(registers, index, value).0,
{
    lemma_checked_write_succeeds(registers, index, value);
    let after = spec_write(registers, index, value).0;
    assert(seq![(index, value)].drop_first() =~= Seq::<(u32, Integer)>::empty());
    assert(spec_apply_writes(after, Seq::<(u32, Integer)>::empty()) == after);
}

/// Reading a register just written gives the value written, unless the
/// register indexes itself (then the write also moves its own index).
pub proof fn lemma_read_after_write(registers: Seq<Option<RegisterView>>, index: u32, value: Integer)
    requires
        spec_registers_wf(registers),
        spec_write(registers, index, value).1 is Ok,
        spec_lookup(registers, index).unwrap().indexes_array != Some(index),
    ensures
        spec_lookup(spec_write(registers, index, value).0, index) matches Some(register) && register.values.selected()
            matches Ok(current) && current.spec_get() == value,
{
    let register = spec_lookup(registers, index).unwrap();
    let current = register.values.selected().unwrap();
    let written = spec_store_selected(registers, index, register, current, value);
    let stored = written[index as int].unwrap();
    assert(stored.values.selected() == Ok::<DigitInteger, RegisterAccessError>(current.spec_with_value(value)));
    if let Some(array) = register.indexes_array {
        assert(array != index);
        assert(spec_reindex(written, index, array, value).0[index as int] == written[index as int]);
    }
}

/// A halted computer stays halted: a cycle changes nothing but marks the tick
/// complete, and reports that nothing ran.
pub proof fn lemma_interrupted_stays(c: ComputerView, program: Seq<Instruction>)
    requires
        c.interrupt is Some,
    ensures
        spec_step_cycle(c, program) == (ComputerView { tick_complete: true, ..c }, false),
{
    reveal(spec_step_cycle);
}

/// A cycle never turns the runtime or the energy counter back, and a halted
/// computer stays halted.
pub proof fn lemma_cycle_counters_monotone(c: ComputerView, program: Seq<Instruction>)
    ensures
        spec_step_cycle(c, program).0.runtime >= c.runtime,
        spec_step_cycle(c, program).0.energy_used >= c.energy_used,
        c.interrupt is Some ==> spec_step_cycle(c, program).0.interrupt == c.interrupt,
{
    reveal(spec_step_cycle);
}

} // verus!
