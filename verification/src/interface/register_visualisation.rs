//! Where a computer's registers are shown: scalars down the first column,
//! array indices and vectors along the first row.
use vstd::prelude::*;

use crate::simulation::computer::{Computer, Register, RegisterValues, RegisterView, ValuesView, NUM_REGISTERS};
use crate::simulation::integer::Integer;

verus! {

/// A place in the grid of registers.
#[derive(Clone, Copy, Debug, PartialEq, Eq, Structural)]
pub struct RegisterVisualisationPosition {
    pub column: usize,
    pub row: usize,
}

/// How a register's value is shown: as a scalar, as the index into an array,
/// or as a vector with the element that its index selects.
#[derive(Clone, Copy, Debug, PartialEq, Eq, Structural)]
pub enum ValueVisualisation {
    Scalar,
    Index,
    Vector { index: usize },
}

/// A register as shown: which register, how, and where.
#[derive(Clone, Copy, Debug)]
pub struct RegisterVisualisation {
    pub register: u32,
    pub value_visualisation: ValueVisualisation,
    pub position: RegisterVisualisationPosition,
}

/// The registers of a computer as shown.
#[derive(Clone, Debug)]
pub struct RegisterVisualisationLayout {
    pub visualisations: Vec<RegisterVisualisation>,
}

/// How `register` is shown when first laid out: a scalar that indexes an
/// array as an index, another scalar as a scalar, and a vector at its first
/// element.
pub open spec fn spec_visualisation_of(register: RegisterView) -> ValueVisualisation {
    match register.values {
        ValuesView::Scalar(..) => if register.indexes_array is None {
            ValueVisualisation::Scalar
        } else {
            ValueVisualisation::Index
        },
        ValuesView::Vector { .. } => ValueVisualisation::Vector { index: 0 },
    }
}

/// How many of `registers` are shown as `kind` shows (vectors counted
/// whatever their element).
pub open spec fn spec_count_shown_as(registers: Seq<Option<RegisterView>>, kind: ValueVisualisation) -> nat
    decreases registers.len(),
{
    if registers.len() == 0 {
        0
    } else {
        spec_count_shown_as(registers.drop_last(), kind) + match registers.last() {
            Some(register) => if spec_visualisation_of(register) == kind { 1nat } else { 0nat },
            None => 0nat,
        }
    }
}

/// The layout of `registers`, in order of their indices, skipping the absent
/// ones: the n-th scalar at row n of the first column; the n-th index and the
/// n-th vector both at column n + 1 of the first row.
pub open spec fn spec_layout(registers: Seq<Option<RegisterView>>) -> Seq<RegisterVisualisation>
    decreases registers.len(),
{
    if registers.len() == 0 {
        Seq::empty()
    } else {
        let before = spec_layout(registers.drop_last());
        match registers.last() {
            Some(register) => {
                let shown = spec_visualisation_of(register);
                let count = spec_count_shown_as(registers.drop_last(), shown);
                let position = if shown == ValueVisualisation::Scalar {
                    RegisterVisualisationPosition { column: 0, row: count as usize }
                } else {
                    RegisterVisualisationPosition { column: (count + 1) as usize, row: 0 }
                };
                before.push(
                    RegisterVisualisation {
                        register: (registers.len() - 1) as u32,
                        value_visualisation: shown,
                        position,
                    },
                )
            },
            None => before,
        }
    }
}

/// How many of `registers` are present.
pub open spec fn spec_present_count(registers: Seq<Option<RegisterView>>) -> nat
    decreases registers.len(),
{
    if registers.len() == 0 {
        0
    } else {
        spec_present_count(registers.drop_last()) + if registers.last() is Some { 1nat } else { 0nat }
    }
}

/// No more registers of a kind are shown than there are registers.
proof fn lemma_count_bounded(registers: Seq<Option<RegisterView>>, kind: ValueVisualisation)
    ensures
        spec_count_shown_as(registers, kind) <= registers.len(),
    decreases registers.len(),
{
    if registers.len() > 0 {
        lemma_count_bounded(registers.drop_last(), kind);
    }
}

impl RegisterVisualisationLayout {
    /// Lays out the registers of `computer`.
    pub fn new(computer: &Computer) -> (result: Self)
        requires
            computer.registers.wf(),
        ensures
            result.visualisations@ == spec_layout(computer.registers.spec_registers()),
    {
        let ghost all = computer.registers.spec_registers();
        let mut visualisations: Vec<RegisterVisualisation> = Vec::new();
        let mut num_scalar: usize = 0;
        let mut num_index: usize = 0;
        let mut num_vector: usize = 0;
        let mut i: usize = 0;
        proof {
            assert(all.take(0) =~= Seq::<Option<RegisterView>>::empty());
        }
        while i < NUM_REGISTERS
            invariant
                all == computer.registers.spec_registers(),
                all.len() == NUM_REGISTERS,
                i <= all.len(),
                visualisations@ == spec_layout(all.take(i as int)),
                num_scalar == spec_count_shown_as(all.take(i as int), ValueVisualisation::Scalar),
                num_index == spec_count_shown_as(all.take(i as int), ValueVisualisation::Index),
                num_vector == spec_count_shown_as(all.take(i as int), ValueVisualisation::Vector { index: 0 }),
            decreases all.len() - i,
        {
            proof {
                assert(all.take(i + 1).drop_last() =~= all.take(i as int));
                lemma_count_bounded(all.take(i as int), ValueVisualisation::Scalar);
                lemma_count_bounded(all.take(i as int), ValueVisualisation::Index);
                lemma_count_bounded(all.take(i as int), ValueVisualisation::Vector { index: 0 });
            }
            if let Some(register) = computer.registers.get(i as u32) {
                let position;
                match register.values {
                    RegisterValues::Scalar(..) => {
                        if register.indexes_array.is_none() {
                            position = RegisterVisualisationPosition { column: 0, row: num_scalar };
                            num_scalar += 1;
                        } else {
                            position = RegisterVisualisationPosition { column: num_index + 1, row: 0 };
                            num_index += 1;
                        }
                    },
                    RegisterValues::Vector { .. } => {
                        position = RegisterVisualisationPosition { column: num_vector + 1, row: 0 };
                        num_vector += 1;
                    },
                }
                visualisations.push(RegisterVisualisation::new(i as u32, register, position));
            }
            i += 1;
        }
        proof {
            assert(all.take(i as int) =~= all);
        }
        RegisterVisualisationLayout { visualisations }
    }
}

impl RegisterVisualisation {
    /// Register `index`, shown as its contents say, at `position`.
    pub fn new(index: u32, register: &Register, position: RegisterVisualisationPosition) -> (result: Self)
        ensures
            result == (RegisterVisualisation {
                register: index,
                value_visualisation: spec_visualisation_of(register@),
                position,
            }),
    {
        RegisterVisualisation {
            register: index,
            value_visualisation: match register.values {
                RegisterValues::Scalar(..) => {
                    if register.indexes_array.is_none() {
                        ValueVisualisation::Scalar
                    } else {
                        ValueVisualisation::Index
                    }
                },
                RegisterValues::Vector { .. } => ValueVisualisation::Vector { index: 0 },
            },
            position,
        }
    }

    /// Follows the register as its contents change.
    pub fn update(&mut self, register: &Register)
        requires
            old(self).value_visualisation.can_show(*register),
        ensures
            final(self).register == old(self).register,
            final(self).position == old(self).position,
            final(self).value_visualisation == old(self).value_visualisation.spec_updated(*register),
    {
        self.value_visualisation.update(register);
    }
}

/// `value - subtrahend`, held within the bounds of `Integer`.
pub open spec fn spec_saturating_difference(value: Integer, subtrahend: Integer) -> int {
    let difference = value - subtrahend;
    if difference > i32::MAX {
        i32::MAX as int
    } else if difference < i32::MIN {
        i32::MIN as int
    } else {
        difference
    }
}

impl ValueVisualisation {
    /// Whether this way of showing fits `register`: a scalar or an index needs
    /// a scalar register that does not or does index an array; a vector needs
    /// a vector register with an element.
    pub open spec fn can_show(self, register: Register) -> bool {
        match self {
            ValueVisualisation::Scalar => register.values is Scalar && register.indexes_array is None,
            ValueVisualisation::Index => register.values is Scalar && register.indexes_array is Some,
            ValueVisualisation::Vector { .. } => match register.values {
                RegisterValues::Vector { values, .. } => values@.len() >= 1,
                _ => false,
            },
        }
    }

    /// The way of showing once the register has changed: a vector follows the
    /// element its index selects, counted from its offset, kept within its
    /// elements.
    pub open spec fn spec_updated(self, register: Register) -> ValueVisualisation {
        match (self, register.values) {
            (ValueVisualisation::Vector { .. }, RegisterValues::Vector { values, index, offset }) => {
                let selected = spec_saturating_difference(index, offset);
                let selected = if selected < 0 { 0 } else { selected };
                let last = values@.len() - 1;
                ValueVisualisation::Vector { index: (if selected < last { selected } else { last }) as usize }
            },
            _ => self,
        }
    }

    /// Follows `register` as its contents change.
    pub fn update(&mut self, register: &Register)
        requires
            old(self).can_show(*register),
        ensures
            *final(self) == old(self).spec_updated(*register),
    {
        if let ValueVisualisation::Vector { index } = self {
            if let RegisterValues::Vector { values, index: register_index, offset } = &register.values {
                let difference = *register_index as i64 - *offset as i64;
                let saturated = if difference > i32::MAX as i64 { i32::MAX as i64 } else { difference };
                let selected: usize = if saturated < 0 { 0 } else { saturated as usize };
                let last = values.len() - 1;
                *index = if selected < last { selected } else { last };
            }
        }
    }

    /// Whether the value is shown as a scalar.
    pub fn is_scalar(&self) -> (result: bool)
        ensures
            result == (*self is Scalar),
    {
        matches!(self, ValueVisualisation::Scalar)
    }

    /// Whether the value is shown as an index.
    pub fn is_index(&self) -> (result: bool)
        ensures
            result == (*self is Index),
    {
        matches!(self, ValueVisualisation::Index)
    }

    /// Whether the value is shown as a vector.
    pub fn is_vector(&self) -> (result: bool)
        ensures
            result == (*self is Vector),
    {
        matches!(self, ValueVisualisation::Vector { .. })
    }
}

} // verus!
