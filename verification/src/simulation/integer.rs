use vstd::prelude::*;

use super::text::{push_chars, push_decimal, push_str, spec_decimal, spec_digits_of, string_from_chars};

verus! {

pub type Integer = i32;

pub type BiggerInteger = i64;

/// The largest digit count (counted from zero, so `digits + 1` decimal digits)
/// that a `DigitInteger` supports.
pub const MAXIMUM_DIGITS: usize = 8;

/// The largest magnitude representable with `digits + 1` decimal digits:
/// 9, 99, 999, ...
pub open spec fn spec_range_of_digits(digits: nat) -> int
    decreases digits,
{
    if digits == 0 {
        9
    } else {
        10 * spec_range_of_digits((digits - 1) as nat) + 9
    }
}

/// The largest magnitude any `DigitInteger` can hold.
pub open spec fn spec_largest_magnitude() -> int {
    999_999_999
}

/// Each digit count adds a decimal digit, and the supported counts stay below
/// ten digits, so every range fits comfortably in an `Integer`.
pub proof fn lemma_range_of_digits_bounds(digits: nat)
    requires
        digits <= MAXIMUM_DIGITS,
    ensures
        9 <= spec_range_of_digits(digits) <= spec_largest_magnitude(),
        digits > 0 ==> spec_range_of_digits(digits) > spec_range_of_digits((digits - 1) as nat),
    decreases digits,
{
    reveal_with_fuel(spec_range_of_digits, 10);
    if digits > 0 {
        lemma_range_of_digits_bounds((digits - 1) as nat);
    }
}

/// Every digit count allows at least the single digits.
pub broadcast proof fn lemma_range_of_digits_positive(digits: nat)
    ensures
        #[trigger] spec_range_of_digits(digits) >= 9,
    decreases digits,
{
    if digits > 0 {
        lemma_range_of_digits_positive((digits - 1) as nat);
    }
}

/// What `check_value` decides: the value itself when it fits in the digits,
/// otherwise the matching error.
pub open spec fn spec_check_value(value: Integer, digits: u8) -> Result<Integer, AssignIntegerError> {
    let range = spec_range_of_digits(digits as nat);
    if value > range {
        Err(AssignIntegerError::ValueTooBig { got: value, maximum: range as Integer })
    } else if value < -range {
        Err(AssignIntegerError::ValueTooSmall { got: value, minimum: (-range) as Integer })
    } else {
        Ok(value)
    }
}

/// An integer whose magnitude is bounded by a number of decimal digits.
#[derive(Clone, Copy, Debug, PartialEq, Eq, Structural)]
pub struct DigitInteger {
    value: Integer,
    digits: u8,
}

#[allow(inconsistent_fields)]
#[derive(Clone, Copy, Debug, PartialEq, Eq, Structural)]
pub enum AssignIntegerError {
    ValueTooBig { got: Integer, maximum: Integer },
    ValueTooSmall { got: Integer, minimum: Integer },
    ValueMuchTooBig { got: BiggerInteger, maximum: Integer },
    ValueMuchTooSmall { got: BiggerInteger, minimum: Integer },
    NumDigitsNotSupported,
}

impl DigitInteger {
    #[verifier::type_invariant]
    spec fn within_digits(self) -> bool {
        &&& self.digits <= MAXIMUM_DIGITS
        &&& -spec_range_of_digits(self.digits as nat) <= self.value <= spec_range_of_digits(
            self.digits as nat,
        )
    }

    /// The value held.
    pub closed spec fn spec_get(self) -> Integer {
        self.value
    }

    /// The digit count that bounds the value.
    pub closed spec fn spec_digits(self) -> u8 {
        self.digits
    }

    /// The same digit count holding another value.
    pub closed spec fn spec_with_value(self, value: Integer) -> DigitInteger {
        DigitInteger { value, digits: self.digits }
    }

    /// Replacing the value keeps the digit count and holds the new value.
    pub broadcast proof fn lemma_with_value(self, value: Integer)
        ensures
            #[trigger] self.spec_with_value(value).spec_get() == value,
            self.spec_with_value(value).spec_digits() == self.spec_digits(),
    {
    }

    /// The largest value this integer may hold.
    pub open spec fn spec_maximum(self) -> int {
        spec_range_of_digits(self.spec_digits() as nat)
    }

    /// Whether `value` may be stored in this integer.
    pub open spec fn accepts(self, value: int) -> bool {
        -self.spec_maximum() <= value <= self.spec_maximum()
    }

    /// A zero of no digits, for a slot that is filled later.
    pub closed spec fn spec_dummy() -> DigitInteger {
        DigitInteger { value: 0, digits: 0 }
    }

    pub fn dummy() -> (result: Self)
        ensures
            result == Self::spec_dummy(),
            result.spec_get() == 0,
            result.spec_digits() == 0,
    {
        proof {
            lemma_range_of_digits_bounds(0);
        }
        Self { value: 0, digits: 0 }
    }

    pub fn new(value: Integer, digits: u8) -> (result: Result<Self, AssignIntegerError>)
        ensures
            digits > MAXIMUM_DIGITS ==> result == Err::<Self, _>(
                AssignIntegerError::NumDigitsNotSupported,
            ),
            digits <= MAXIMUM_DIGITS ==> match spec_check_value(value, digits) {
                Ok(v) => result matches Ok(d) && d.spec_get() == v && d.spec_digits() == digits,
                Err(e) => result == Err::<Self, _>(e),
            },
    {
        if digits <= MAXIMUM_DIGITS as u8 {
            match Self::check_value(value, digits) {
                Ok(value) => Ok(Self { value, digits }),
                Err(error) => Err(error),
            }
        } else {
            Err(AssignIntegerError::NumDigitsNotSupported)
        }
    }

    pub fn try_set(&mut self, value: Integer) -> (result: Result<(), AssignIntegerError>)
        ensures
            final(self).spec_digits() == old(self).spec_digits(),
            match spec_check_value(value, old(self).spec_digits()) {
                Ok(v) => result is Ok && final(self).spec_get() == v && *final(self)
                    == old(self).spec_with_value(value),
                Err(e) => result == Err::<(), _>(e) && *final(self) == *old(self),
            },
    {
        proof {
            use_type_invariant(&*self);
        }
        match Self::check_value(value, self.digits) {
            Ok(value) => {
                self.value = value;
                Ok(())
            },
            Err(error) => Err(error),
        }
    }

    pub fn is_valid(&self, value: Integer) -> (result: Result<(), AssignIntegerError>)
        ensures
            match spec_check_value(value, self.spec_digits()) {
                Ok(_) => result is Ok,
                Err(e) => result == Err::<(), _>(e),
            },
    {
        proof {
            use_type_invariant(self);
        }
        match Self::check_value(value, self.digits) {
            Ok(_) => Ok(()),
            Err(error) => Err(error),
        }
    }

    pub fn get(&self) -> (result: Integer)
        ensures
            result == self.spec_get(),
            -spec_largest_magnitude() <= result <= spec_largest_magnitude(),
            self.accepts(result as int),
    {
        proof {
            use_type_invariant(self);
            lemma_range_of_digits_bounds(self.digits as nat);
        }
        self.value
    }

    pub fn get_bigger(&self) -> (result: BiggerInteger)
        ensures
            result == self.spec_get(),
    {
        self.value as BiggerInteger
    }

    fn check_value(value: Integer, digits: u8) -> (result: Result<Integer, AssignIntegerError>)
        requires
            digits <= MAXIMUM_DIGITS,
        ensures
            result == spec_check_value(value, digits),
    {
        let digit_range = Self::range_of_digits(digits);

        if value > digit_range {
            Err(AssignIntegerError::ValueTooBig { got: value, maximum: digit_range })
        } else if value < -digit_range {
            Err(AssignIntegerError::ValueTooSmall { got: value, minimum: -digit_range })
        } else {
            Ok(value)
        }
    }

    pub fn maximum(&self) -> (result: Integer)
        ensures
            result == self.spec_maximum(),
            9 <= result <= spec_largest_magnitude(),
    {
        proof {
            use_type_invariant(self);
            lemma_range_of_digits_bounds(self.digits as nat);
        }
        Self::range_of_digits(self.digits)
    }

    pub fn minimum(&self) -> (result: Integer)
        ensures
            result == -self.spec_maximum(),
    {
        -self.maximum()
    }

    pub fn range_of_digits(digits: u8) -> (result: Integer)
        requires
            digits <= MAXIMUM_DIGITS,
        ensures
            result == spec_range_of_digits(digits as nat),
            9 <= result <= spec_largest_magnitude(),
    {
        proof {
            lemma_range_of_digits_bounds(digits as nat);
        }
        let mut acc: Integer = 9;
        let mut i: u8 = 0;
        while i < digits
            invariant
                i <= digits <= MAXIMUM_DIGITS,
                acc == spec_range_of_digits(i as nat),
            decreases digits - i,
        {
            proof {
                lemma_range_of_digits_bounds((i + 1) as nat);
            }
            acc = acc * 10 + 9;
            i = i + 1;
        }
        acc
    }
}

impl DigitInteger {
    /// The number of decimal digits the integer may use.
    pub fn num_digits(&self) -> (result: usize)
        ensures
            result == self.spec_digits() + 1,
    {
        self.digits as usize + 1
    }

    /// How the integer is displayed: its value in decimal.
    pub fn to_display_string(&self) -> (result: String)
        ensures
            result@ == spec_decimal(self.spec_get() as int),
    {
        let mut out: Vec<char> = Vec::new();
        push_decimal(&mut out, self.value as i128);
        string_from_chars(out.as_slice())
    }

    /// The debug form of the integer: its sign, then its magnitude padded with
    /// zeros to all of its digits.
    pub fn to_debug_string(&self) -> (result: String)
        ensures
            result@ == spec_debug_form(self.spec_get() as int, self.spec_digits() as int),
    {
        proof {
            use_type_invariant(self);
            lemma_range_of_digits_bounds(self.digits as nat);
        }
        let mut out: Vec<char> = Vec::new();
        if self.value < 0 {
            out.push('-');
        }
        let magnitude: i128 = if self.value < 0 {
            -(self.value as i128)
        } else {
            self.value as i128
        };
        let mut digits: Vec<char> = Vec::new();
        push_decimal(&mut digits, magnitude);
        let width = self.digits as usize + 1;
        let mut padding = digits.len();
        let ghost start = out@;
        while padding < width
            invariant
                digits@.len() <= padding <= width || width < digits@.len() == padding,
                out@ == start + Seq::new((padding - digits@.len()) as nat, |i: int| '0'),
            decreases width - padding,
        {
            out.push('0');
            proof {
                assert(out@ =~= start + Seq::new((padding + 1 - digits@.len()) as nat, |i: int| '0'));
            }
            padding += 1;
        }
        push_chars(&mut out, digits.as_slice());
        proof {
            assert(out@ =~= (if self.value < 0 {
                seq!['-']
            } else {
                Seq::<char>::empty()
            }) + Seq::new(spec_padding(digits@.len() as int, width as int), |i: int| '0') + digits@);
        }
        string_from_chars(out.as_slice())
    }
}

/// How many padding characters bring `length` characters up to `width`.
pub open spec fn spec_padding(length: int, width: int) -> nat {
    if length < width {
        (width - length) as nat
    } else {
        0
    }
}

/// The debug form of `value` with `digits + 1` digits: its sign, then its
/// magnitude padded with zeros.
pub open spec fn spec_debug_form(value: int, digits: int) -> Seq<char> {
    let magnitude = spec_decimal(if value < 0 {
        -value
    } else {
        value
    });
    (if value < 0 {
        seq!['-']
    } else {
        Seq::<char>::empty()
    }) + Seq::new(spec_padding(magnitude.len() as int, digits + 1), |i: int| '0') + magnitude
}

/// The message for a value above a machine's maximum.
pub open spec fn spec_overflow_message(value: Seq<char>, maximum: Integer) -> Seq<char> {
    seq!['"'] + value + "\" is too big for this machine (maximum: "@ + spec_decimal(maximum as int) + seq![')']
}

/// The message for a value below a machine's minimum.
pub open spec fn spec_underflow_message(value: Seq<char>, minimum: Integer) -> Seq<char> {
    seq!['"'] + value + "\" is too small for this machine (minimum: "@ + spec_decimal(minimum as int) + seq![')']
}

/// The message for `value` being above `maximum`.
pub fn format_overflow_error(value: &[char], maximum: Integer) -> (result: String)
    ensures
        result@ == spec_overflow_message(value@, maximum),
{
    let mut out: Vec<char> = Vec::new();
    out.push('"');
    push_chars(&mut out, value);
    push_str(&mut out, "\" is too big for this machine (maximum: ");
    push_decimal(&mut out, maximum as i128);
    out.push(')');
    proof {
        assert(out@ =~= spec_overflow_message(value@, maximum));
    }
    string_from_chars(out.as_slice())
}

/// The message for `value` being below `minimum`.
pub fn format_underflow_error(value: &[char], minimum: Integer) -> (result: String)
    ensures
        result@ == spec_underflow_message(value@, minimum),
{
    let mut out: Vec<char> = Vec::new();
    out.push('"');
    push_chars(&mut out, value);
    push_str(&mut out, "\" is too small for this machine (minimum: ");
    push_decimal(&mut out, minimum as i128);
    out.push(')');
    proof {
        assert(out@ =~= spec_underflow_message(value@, minimum));
    }
    string_from_chars(out.as_slice())
}

/// How an assignment error is described.
pub open spec fn spec_assign_error_message(error: AssignIntegerError) -> Seq<char> {
    match error {
        AssignIntegerError::ValueTooBig { got, maximum } => spec_overflow_message(spec_decimal(got as int), maximum),
        AssignIntegerError::ValueTooSmall { got, minimum } => spec_underflow_message(spec_decimal(got as int), minimum),
        AssignIntegerError::ValueMuchTooBig { got, maximum } => spec_overflow_message(spec_decimal(got as int), maximum),
        AssignIntegerError::ValueMuchTooSmall { got, minimum } => spec_underflow_message(spec_decimal(got as int), minimum),
        AssignIntegerError::NumDigitsNotSupported => "Number of digits not supported"@,
    }
}

impl AssignIntegerError {
    /// How the error is described.
    pub fn to_display_string(&self) -> (result: String)
        ensures
            result@ == spec_assign_error_message(*self),
    {
        let mut value: Vec<char> = Vec::new();
        match self {
            AssignIntegerError::ValueTooBig { got, maximum } => {
                push_decimal(&mut value, *got as i128);
                format_overflow_error(value.as_slice(), *maximum)
            },
            AssignIntegerError::ValueTooSmall { got, minimum } => {
                push_decimal(&mut value, *got as i128);
                format_underflow_error(value.as_slice(), *minimum)
            },
            AssignIntegerError::ValueMuchTooBig { got, maximum } => {
                push_decimal(&mut value, *got as i128);
                format_overflow_error(value.as_slice(), *maximum)
            },
            AssignIntegerError::ValueMuchTooSmall { got, minimum } => {
                push_decimal(&mut value, *got as i128);
                format_underflow_error(value.as_slice(), *minimum)
            },
            AssignIntegerError::NumDigitsNotSupported => {
                push_str(&mut value, "Number of digits not supported");
                string_from_chars(value.as_slice())
            },
        }
    }
}

} // verus!
