use vstd::prelude::*;

use super::argument::{spec_comparison_symbol, Argument, Comparison, NumberSource, Order};
use super::computer::{
    name_of_register, register_with_name, spec_lookup, spec_name_of_register, spec_program_fits,
    spec_register_with_name, Computer, RegisterView,
};
use super::instruction::{
    spec_default_properties, spec_requirement_text, ArgumentRequirement, Instruction,
    InstructionKind, InstructionKindMap, InstructionProperties, NUM_ARGUMENTS,
};
use super::integer::{
    format_overflow_error, format_underflow_error, spec_check_value, spec_overflow_message,
    spec_range_of_digits, spec_underflow_message, AssignIntegerError, DigitInteger, Integer,
    MAXIMUM_DIGITS,
};
use super::text::{
    chars_between, chars_equal, chars_less, chars_of, is_label_char, lemma_chars_less_total,
    lemma_chars_less_transitive, lines_of, parse_integer, position_of,
    spec_chars_less, spec_is_label_char, spec_lines_of, spec_parse_integer, spec_position_of,
    spec_tokens, spec_views, string_from_chars, tokens_of, ParsedInteger,
    push_chars, push_decimal, push_str, spec_decimal,
};

verus! {

pub const COMMENT_SEPARATOR: char = ';';

pub const LABEL_PSEUDO_INSTRUCTION: &'static str = "LBL";

/// The characters of `LABEL_PSEUDO_INSTRUCTION`.
pub open spec fn spec_label_keyword() -> Seq<char> {
    seq!['L', 'B', 'L']
}

#[derive(Clone, Debug)]
pub struct Program {
    pub name: String,
    pub instructions: Vec<Instruction>,
}

impl Program {
    pub fn new_empty(name: String) -> (result: Self)
        ensures
            result.name@ == name@,
            result.instructions@ == Seq::<Instruction>::empty(),
    {
        Self { name, instructions: Vec::new() }
    }

    pub fn instruction(self, instruction: Instruction) -> (result: Self)
        ensures
            result.name@ == self.name@,
            result.instructions@ == self.instructions@.push(instruction),
    {
        let mut result = self;
        result.instructions.push(instruction);
        result
    }
}

/// An argument as the assembler first reads it: a word, or a comparison of two
/// words.
pub enum ArgumentText {
    Token(Seq<char>),
    Comparison { ordering: Order, invert: bool, values: (Seq<char>, Seq<char>) },
}

#[derive(Clone, Debug)]
pub enum ArgumentIntermediate {
    Token(Vec<char>),
    Comparison { ordering: Order, invert: bool, values: [Vec<char>; 2] },
}

impl View for ArgumentIntermediate {
    type V = ArgumentText;

    open spec fn view(&self) -> ArgumentText {
        match self {
            ArgumentIntermediate::Token(token) => ArgumentText::Token(token@),
            ArgumentIntermediate::Comparison { ordering, invert, values } => ArgumentText::Comparison {
                ordering: *ordering,
                invert: *invert,
                values: (values@[0]@, values@[1]@),
            },
        }
    }
}

#[derive(Clone, Debug)]
pub enum OwnedArgumentIntermediate {
    Token(String),
    Comparison { ordering: Order, invert: bool, values: [String; 2] },
}

impl View for OwnedArgumentIntermediate {
    type V = ArgumentText;

    open spec fn view(&self) -> ArgumentText {
        match self {
            OwnedArgumentIntermediate::Token(token) => ArgumentText::Token(token@),
            OwnedArgumentIntermediate::Comparison { ordering, invert, values } => ArgumentText::Comparison {
                ordering: *ordering,
                invert: *invert,
                values: (values@[0]@, values@[1]@),
            },
        }
    }
}

#[derive(Clone, Debug)]
pub enum ParseArgumentError {
    OutOfTokens,
    IncompleteComparison,
    ConstantTooBig { got: String, maximum: Integer },
    ConstantTooSmall { got: String, minimum: Integer },
    NoSuchLabel(String),
    InvalidLabel(String),
    IncorrectType,
}

/// A `ParseArgumentError`, with its text as characters.
pub enum ParseArgumentErrorView {
    OutOfTokens,
    IncompleteComparison,
    ConstantTooBig { got: Seq<char>, maximum: Integer },
    ConstantTooSmall { got: Seq<char>, minimum: Integer },
    NoSuchLabel(Seq<char>),
    InvalidLabel(Seq<char>),
    IncorrectType,
}

impl View for ParseArgumentError {
    type V = ParseArgumentErrorView;

    open spec fn view(&self) -> ParseArgumentErrorView {
        match self {
            ParseArgumentError::OutOfTokens => ParseArgumentErrorView::OutOfTokens,
            ParseArgumentError::IncompleteComparison => ParseArgumentErrorView::IncompleteComparison,
            ParseArgumentError::ConstantTooBig { got, maximum } => ParseArgumentErrorView::ConstantTooBig {
                got: got@,
                maximum: *maximum,
            },
            ParseArgumentError::ConstantTooSmall { got, minimum } => ParseArgumentErrorView::ConstantTooSmall {
                got: got@,
                minimum: *minimum,
            },
            ParseArgumentError::NoSuchLabel(label) => ParseArgumentErrorView::NoSuchLabel(label@),
            ParseArgumentError::InvalidLabel(label) => ParseArgumentErrorView::InvalidLabel(label@),
            ParseArgumentError::IncorrectType => ParseArgumentErrorView::IncorrectType,
        }
    }
}

#[derive(Clone, Debug)]
pub enum ProgramAssemblyErrorKind {
    RegisterNotSupported(u32),
    NoSuchOperation(String),
    DuplicateLabel(String),
    UnexpectedArgument { got: OwnedArgumentIntermediate, expected: ArgumentRequirement },
    TooManyArguments { got: usize, maximum: usize },
    TooFewArguments { got: usize, minimum: usize },
    InvalidArgument(ParseArgumentError),
}

/// A `ProgramAssemblyErrorKind`, with its text as characters.
pub enum AssemblyErrorKindView {
    RegisterNotSupported(u32),
    NoSuchOperation(Seq<char>),
    DuplicateLabel(Seq<char>),
    UnexpectedArgument { got: ArgumentText, expected: ArgumentRequirement },
    TooManyArguments { got: usize, maximum: usize },
    TooFewArguments { got: usize, minimum: usize },
    InvalidArgument(ParseArgumentErrorView),
}

impl View for ProgramAssemblyErrorKind {
    type V = AssemblyErrorKindView;

    open spec fn view(&self) -> AssemblyErrorKindView {
        match self {
            ProgramAssemblyErrorKind::RegisterNotSupported(register) => AssemblyErrorKindView::RegisterNotSupported(
                *register,
            ),
            ProgramAssemblyErrorKind::NoSuchOperation(name) => AssemblyErrorKindView::NoSuchOperation(name@),
            ProgramAssemblyErrorKind::DuplicateLabel(label) => AssemblyErrorKindView::DuplicateLabel(label@),
            ProgramAssemblyErrorKind::UnexpectedArgument { got, expected } => AssemblyErrorKindView::UnexpectedArgument {
                got: got@,
                expected: *expected,
            },
            ProgramAssemblyErrorKind::TooManyArguments { got, maximum } => AssemblyErrorKindView::TooManyArguments {
                got: *got,
                maximum: *maximum,
            },
            ProgramAssemblyErrorKind::TooFewArguments { got, minimum } => AssemblyErrorKindView::TooFewArguments {
                got: *got,
                minimum: *minimum,
            },
            ProgramAssemblyErrorKind::InvalidArgument(error) => AssemblyErrorKindView::InvalidArgument(error@),
        }
    }
}

#[derive(Clone, Debug)]
pub struct ProgramAssemblyError {
    pub lines: Vec<u32>,
    pub kind: ProgramAssemblyErrorKind,
}

/// A `ProgramAssemblyError`, with its text as characters.
pub struct AssemblyErrorView {
    pub lines: Seq<u32>,
    pub kind: AssemblyErrorKindView,
}

impl View for ProgramAssemblyError {
    type V = AssemblyErrorView;

    open spec fn view(&self) -> AssemblyErrorView {
        AssemblyErrorView { lines: self.lines@, kind: self.kind@ }
    }
}

/// An error on one line.
pub open spec fn spec_line_error(line: u32, kind: AssemblyErrorKindView) -> AssemblyErrorView {
    AssemblyErrorView { lines: seq![line], kind }
}

fn line_error(line: u32, kind: ProgramAssemblyErrorKind) -> (result: ProgramAssemblyError)
    ensures
        result@ == spec_line_error(line, kind@),
{
    let mut lines: Vec<u32> = Vec::new();
    lines.push(line);
    ProgramAssemblyError { lines, kind }
}

/// Where a label points: the index of the instruction after it, and the line
/// it is on.
#[derive(Clone, Copy, Debug)]
pub struct LabelIndex {
    pub index: u32,
    pub line: u32,
}

/// The comparison a comparison operator token stands for, as an ordering and
/// whether it is inverted.
pub open spec fn spec_comparison_operator(token: Seq<char>) -> Option<(Order, bool)> {
    if token == seq!['<'] {
        Some((Order::Less, false))
    } else if token == seq!['='] {
        Some((Order::Equal, false))
    } else if token == seq!['>'] {
        Some((Order::Greater, false))
    } else if token == seq!['≥'] || token == seq!['>', '='] {
        Some((Order::Less, true))
    } else if token == seq!['≠'] || token == seq!['!', '='] || token == seq!['/', '='] {
        Some((Order::Equal, true))
    } else if token == seq!['≤'] || token == seq!['<', '='] {
        Some((Order::Greater, true))
    } else {
        None
    }
}

/// Whether `token` is the one character `c`.
fn is_char_token(token: &[char], c: char) -> (result: bool)
    ensures
        result == (token@ == seq![c]),
{
    let result = token.len() == 1 && token[0] == c;
    proof {
        if token@.len() == 1 && token@[0] == c {
            assert(token@ =~= seq![c]);
        }
    }
    result
}

/// Whether `token` is the two characters `first` and `second`.
fn is_pair_token(token: &[char], first: char, second: char) -> (result: bool)
    ensures
        result == (token@ == seq![first, second]),
{
    let result = token.len() == 2 && token[0] == first && token[1] == second;
    proof {
        if token@.len() == 2 && token@[0] == first && token@[1] == second {
            assert(token@ =~= seq![first, second]);
        }
    }
    result
}

fn comparison_operator(token: &[char]) -> (result: Option<(Order, bool)>)
    ensures
        result == spec_comparison_operator(token@),
{
    if is_char_token(token, '<') {
        Some((Order::Less, false))
    } else if is_char_token(token, '=') {
        Some((Order::Equal, false))
    } else if is_char_token(token, '>') {
        Some((Order::Greater, false))
    } else if is_char_token(token, '≥') || is_pair_token(token, '>', '=') {
        Some((Order::Less, true))
    } else if is_char_token(token, '≠') || is_pair_token(token, '!', '=') || is_pair_token(
        token,
        '/',
        '=',
    ) {
        Some((Order::Equal, true))
    } else if is_char_token(token, '≤') || is_pair_token(token, '<', '=') {
        Some((Order::Greater, true))
    } else {
        None
    }
}

/// Takes the next argument from `tokens` at `position`: a word, or a word, a
/// comparison operator and another word. The argument, and where the next one
/// starts.
pub open spec fn spec_pop_argument(tokens: Seq<Seq<char>>, position: int) -> Result<
    (ArgumentText, int),
    ParseArgumentErrorView,
> {
    if position >= tokens.len() {
        Err(ParseArgumentErrorView::OutOfTokens)
    } else if position + 1 < tokens.len() && spec_comparison_operator(tokens[position + 1]) is Some {
        let (ordering, invert) = spec_comparison_operator(tokens[position + 1]).unwrap();
        if position + 2 < tokens.len() {
            Ok(
                (
                    ArgumentText::Comparison {
                        ordering,
                        invert,
                        values: (tokens[position], tokens[position + 2]),
                    },
                    position + 3,
                ),
            )
        } else {
            Err(ParseArgumentErrorView::IncompleteComparison)
        }
    } else {
        Ok((ArgumentText::Token(tokens[position]), position + 1))
    }
}

/// The views of a list of character vectors.
pub open spec fn spec_token_views(tokens: Seq<Vec<char>>) -> Seq<Seq<char>> {
    tokens.map_values(|token: Vec<char>| token@)
}

fn clone_chars(chars: &Vec<char>) -> (result: Vec<char>)
    ensures
        result@ == chars@,
{
    let mut result: Vec<char> = Vec::new();
    let mut i: usize = 0;
    while i < chars.len()
        invariant
            i <= chars@.len(),
            result@ == chars@.take(i as int),
        decreases chars@.len() - i,
    {
        result.push(chars[i]);
        i += 1;
    }
    proof {
        assert(chars@.take(i as int) =~= chars@);
    }
    result
}

impl ArgumentIntermediate {
    pub fn to_owned(&self) -> (result: OwnedArgumentIntermediate)
        ensures
            result@ == self@,
    {
        match self {
            ArgumentIntermediate::Token(token) => OwnedArgumentIntermediate::Token(
                string_from_chars(token.as_slice()),
            ),
            ArgumentIntermediate::Comparison { ordering, invert, values } => {
                let lhs = string_from_chars(values[0].as_slice());
                let rhs = string_from_chars(values[1].as_slice());
                OwnedArgumentIntermediate::Comparison {
                    ordering: *ordering,
                    invert: *invert,
                    values: [lhs, rhs],
                }
            },
        }
    }

    /// Takes the next argument from `tokens`, starting at `*position`, and
    /// moves `*position` past it.
    pub fn pop_from_tokens(tokens: &Vec<Vec<char>>, position: &mut usize) -> (result: Result<
        Self,
        ParseArgumentError,
    >)
        requires
            *old(position) <= tokens@.len(),
        ensures
            match spec_pop_argument(spec_token_views(tokens@), *old(position) as int) {
                Ok((argument, next)) => result matches Ok(popped) && popped@ == argument
                    && *final(position) == next,
                Err(error) => result matches Err(e) && e@ == error,
            },
            *final(position) <= tokens@.len(),
    {
        if *position >= tokens.len() {
            return Err(ParseArgumentError::OutOfTokens);
        }
        let first_value = clone_chars(&tokens[*position]);
        *position += 1;

        if *position >= tokens.len() {
            return Ok(ArgumentIntermediate::Token(first_value));
        }
        let (ordering, invert) = match comparison_operator(tokens[*position].as_slice()) {
            Some(comparison) => comparison,
            None => return Ok(ArgumentIntermediate::Token(first_value)),
        };
        *position += 1;

        if *position >= tokens.len() {
            return Err(ParseArgumentError::IncompleteComparison);
        }
        let second_value = clone_chars(&tokens[*position]);
        *position += 1;

        Ok(ArgumentIntermediate::Comparison { ordering, invert, values: [first_value, second_value] })
    }
}

/// Whether every character of `label` may appear in a label.
pub open spec fn spec_is_label_valid(label: Seq<char>) -> bool {
    forall|i: int| 0 <= i < label.len() ==> spec_is_label_char(#[trigger] label[i])
}

pub fn is_label_valid(label: &[char]) -> (result: bool)
    ensures
        result == spec_is_label_valid(label@),
{
    let mut i: usize = 0;
    while i < label.len()
        invariant
            i <= label@.len(),
            forall|j: int| 0 <= j < i ==> spec_is_label_char(#[trigger] label@[j]),
        decreases label@.len() - i,
    {
        if !is_label_char(label[i]) {
            return false;
        }
        i += 1;
    }
    true
}

/// The position a label names: that of its last definition, if it has one.
pub open spec fn spec_label_lookup(labels: Seq<(Seq<char>, LabelIndex)>, label: Seq<char>) -> Option<LabelIndex>
    decreases labels.len(),
{
    if labels.len() == 0 {
        None
    } else if labels.last().0 == label {
        Some(labels.last().1)
    } else {
        spec_label_lookup(labels.drop_last(), label)
    }
}

/// The labels of a label table, with their positions.
pub open spec fn spec_label_views(labels: Seq<(Vec<char>, LabelIndex)>) -> Seq<(Seq<char>, LabelIndex)> {
    labels.map_values(|entry: (Vec<char>, LabelIndex)| (entry.0@, entry.1))
}

fn label_lookup(labels: &Vec<(Vec<char>, LabelIndex)>, label: &[char]) -> (result: Option<LabelIndex>)
    ensures
        result == spec_label_lookup(spec_label_views(labels@), label@),
{
    let mut i: usize = labels.len();
    proof {
        assert(spec_label_views(labels@).take(i as int) =~= spec_label_views(labels@));
    }
    while i > 0
        invariant
            i <= labels@.len(),
            spec_label_lookup(spec_label_views(labels@), label@) == spec_label_lookup(
                spec_label_views(labels@).take(i as int),
                label@,
            ),
        decreases i,
    {
        proof {
            assert(spec_label_views(labels@).take(i as int).drop_last() =~= spec_label_views(labels@).take(
                i - 1,
            ));
        }
        if chars_equal(labels[i - 1].0.as_slice(), label) {
            return Some(labels[i - 1].1);
        }
        i -= 1;
    }
    None
}

/// What reading an argument as a constant gives: the value of a word that
/// parses as an integer within `maximum_digits` digits, or why it is not one.
pub open spec fn spec_as_constant(argument: ArgumentText, maximum_digits: u8) -> Result<
    Integer,
    ParseArgumentErrorView,
> {
    match argument {
        ArgumentText::Comparison { .. } => Err(ParseArgumentErrorView::IncorrectType),
        ArgumentText::Token(token) => {
            let range = spec_range_of_digits(maximum_digits as nat);
            match spec_parse_integer(token) {
                ParsedInteger::PositiveOverflow => Err(
                    ParseArgumentErrorView::ConstantTooBig { got: token, maximum: range as Integer },
                ),
                ParsedInteger::NegativeOverflow => Err(
                    ParseArgumentErrorView::ConstantTooSmall { got: token, minimum: (-range) as Integer },
                ),
                ParsedInteger::Invalid => Err(ParseArgumentErrorView::IncorrectType),
                ParsedInteger::Value(value) => if value > range {
                    Err(ParseArgumentErrorView::ConstantTooBig { got: token, maximum: range as Integer })
                } else if value < -range {
                    Err(ParseArgumentErrorView::ConstantTooSmall { got: token, minimum: (-range) as Integer })
                } else {
                    Ok(value)
                },
            }
        },
    }
}

/// What reading an argument as a register gives: the register a one-letter
/// word names.
pub open spec fn spec_as_register(argument: ArgumentText) -> Result<u32, ParseArgumentErrorView> {
    match argument {
        ArgumentText::Token(token) => if token.len() == 1 && spec_register_with_name(token[0]) is Some {
            Ok(spec_register_with_name(token[0]).unwrap())
        } else {
            Err(ParseArgumentErrorView::IncorrectType)
        },
        ArgumentText::Comparison { .. } => Err(ParseArgumentErrorView::IncorrectType),
    }
}

/// Of two failed readings, the second's error when the first was only of the
/// wrong type, otherwise the first's.
pub open spec fn spec_first_real_error(
    first: ParseArgumentErrorView,
    second: ParseArgumentErrorView,
) -> ParseArgumentErrorView {
    if first is IncorrectType {
        second
    } else {
        first
    }
}

/// What reading an argument as a number gives: a constant, else a register.
pub open spec fn spec_as_number_source(argument: ArgumentText, maximum_digits: u8) -> Result<
    NumberSource,
    ParseArgumentErrorView,
> {
    match spec_as_constant(argument, maximum_digits) {
        Ok(constant) => Ok(NumberSource::Constant(constant)),
        Err(constant_error) => match spec_as_register(argument) {
            Ok(register) => Ok(NumberSource::Register(register)),
            Err(register_error) => Err(spec_first_real_error(constant_error, register_error)),
        },
    }
}

/// What reading an argument as a comparison gives: a comparison of two
/// numbers.
pub open spec fn spec_as_comparison(argument: ArgumentText, maximum_digits: u8) -> Result<
    Comparison,
    ParseArgumentErrorView,
> {
    match argument {
        ArgumentText::Token(_) => Err(ParseArgumentErrorView::IncorrectType),
        ArgumentText::Comparison { ordering, invert, values } => match spec_as_number_source(
            ArgumentText::Token(values.0),
            maximum_digits,
        ) {
            Err(error) => Err(error),
            Ok(lhs) => match spec_as_number_source(ArgumentText::Token(values.1), maximum_digits) {
                Err(error) => Err(error),
                Ok(rhs) => Ok(Comparison { ordering, invert, values: [lhs, rhs] }),
            },
        },
    }
}

/// What reading an argument as any value gives: a number, else a comparison.
pub open spec fn spec_as_value(argument: ArgumentText, maximum_digits: u8) -> Result<
    Argument,
    ParseArgumentErrorView,
> {
    match spec_as_number_source(argument, maximum_digits) {
        Ok(source) => Ok(Argument::Number(source)),
        Err(source_error) => match spec_as_comparison(argument, maximum_digits) {
            Ok(comparison) => Ok(Argument::Comparison(comparison)),
            Err(comparison_error) => Err(spec_first_real_error(source_error, comparison_error)),
        },
    }
}

/// What reading an argument as a label gives: a word made only of label
/// characters.
pub open spec fn spec_as_label(argument: ArgumentText) -> Result<Seq<char>, ParseArgumentErrorView> {
    match argument {
        ArgumentText::Token(label) => if spec_is_label_valid(label) {
            Ok(label)
        } else {
            Err(ParseArgumentErrorView::InvalidLabel(label))
        },
        ArgumentText::Comparison { .. } => Err(ParseArgumentErrorView::IncorrectType),
    }
}

/// What reading an argument for a slot with `requirement` gives.
#[verifier::opaque]
pub open spec fn spec_as_requirement(
    argument: ArgumentText,
    requirement: ArgumentRequirement,
    labels: Seq<(Seq<char>, LabelIndex)>,
    maximum_digits: u8,
) -> Result<Argument, ParseArgumentErrorView> {
    match requirement {
        ArgumentRequirement::Constant | ArgumentRequirement::ConstantOrEmpty => match spec_as_constant(
            argument,
            maximum_digits,
        ) {
            Ok(constant) => Ok(Argument::Number(NumberSource::Constant(constant))),
            Err(error) => Err(error),
        },
        ArgumentRequirement::RegisterWriteOnly | ArgumentRequirement::Register => match spec_as_register(
            argument,
        ) {
            Ok(register) => Ok(Argument::Number(NumberSource::Register(register))),
            Err(error) => Err(error),
        },
        ArgumentRequirement::ConstantOrRegister => match spec_as_number_source(argument, maximum_digits) {
            Ok(source) => Ok(Argument::Number(source)),
            Err(error) => Err(error),
        },
        ArgumentRequirement::Comparison => match spec_as_comparison(argument, maximum_digits) {
            Ok(comparison) => Ok(Argument::Comparison(comparison)),
            Err(error) => Err(error),
        },
        ArgumentRequirement::AnyValue | ArgumentRequirement::AnyValueOrEmpty => spec_as_value(
            argument,
            maximum_digits,
        ),
        ArgumentRequirement::Instruction => match spec_as_label(argument) {
            Err(error) => Err(error),
            Ok(label) => match spec_label_lookup(labels, label) {
                Some(position) => Ok(Argument::Instruction(position.index)),
                None => Err(ParseArgumentErrorView::NoSuchLabel(label)),
            },
        },
        ArgumentRequirement::Empty => Err(ParseArgumentErrorView::IncorrectType),
    }
}

impl ArgumentIntermediate {
    pub fn as_requirement(
        &self,
        requirement: ArgumentRequirement,
        labels: &Vec<(Vec<char>, LabelIndex)>,
        maximum_digits: u8,
    ) -> (result: Result<Argument, ParseArgumentError>)
        requires
            maximum_digits <= MAXIMUM_DIGITS,
        ensures
            match spec_as_requirement(self@, requirement, spec_label_views(labels@), maximum_digits) {
                Ok(argument) => result == Ok::<Argument, ParseArgumentError>(argument),
                Err(error) => result matches Err(e) && e@ == error,
            },
    {
        proof {
            reveal(spec_as_requirement);
        }
        match requirement {
            ArgumentRequirement::Constant | ArgumentRequirement::ConstantOrEmpty => {
                match self.as_constant(maximum_digits) {
                    Ok(constant) => Ok(Argument::Number(NumberSource::Constant(constant))),
                    Err(error) => Err(error),
                }
            },
            ArgumentRequirement::RegisterWriteOnly | ArgumentRequirement::Register => {
                match self.as_register() {
                    Ok(register) => Ok(Argument::Number(NumberSource::Register(register))),
                    Err(error) => Err(error),
                }
            },
            ArgumentRequirement::ConstantOrRegister => match self.as_number_source(maximum_digits) {
                Ok(source) => Ok(Argument::Number(source)),
                Err(error) => Err(error),
            },
            ArgumentRequirement::Comparison => match self.as_comparison(maximum_digits) {
                Ok(comparison) => Ok(Argument::Comparison(comparison)),
                Err(error) => Err(error),
            },
            ArgumentRequirement::AnyValue | ArgumentRequirement::AnyValueOrEmpty => {
                self.as_value(maximum_digits)
            },
            ArgumentRequirement::Instruction => {
                let label = match self.as_label() {
                    Ok(label) => label,
                    Err(error) => return Err(error),
                };
                match label_lookup(labels, label.as_slice()) {
                    Some(position) => Ok(Argument::Instruction(position.index)),
                    None => Err(ParseArgumentError::NoSuchLabel(string_from_chars(label.as_slice()))),
                }
            },
            ArgumentRequirement::Empty => Err(ParseArgumentError::IncorrectType),
        }
    }

    pub fn as_label(&self) -> (result: Result<Vec<char>, ParseArgumentError>)
        ensures
            match spec_as_label(self@) {
                Ok(label) => result matches Ok(l) && l@ == label,
                Err(error) => result matches Err(e) && e@ == error,
            },
    {
        match self {
            ArgumentIntermediate::Token(label) => {
                if is_label_valid(label.as_slice()) {
                    Ok(clone_chars(label))
                } else {
                    Err(ParseArgumentError::InvalidLabel(string_from_chars(label.as_slice())))
                }
            },
            ArgumentIntermediate::Comparison { .. } => Err(ParseArgumentError::IncorrectType),
        }
    }

    pub fn as_constant(&self, maximum_digits: u8) -> (result: Result<Integer, ParseArgumentError>)
        requires
            maximum_digits <= MAXIMUM_DIGITS,
        ensures
            match spec_as_constant(self@, maximum_digits) {
                Ok(value) => result == Ok::<Integer, ParseArgumentError>(value),
                Err(error) => result matches Err(e) && e@ == error,
            },
    {
        match self {
            ArgumentIntermediate::Token(token) => {
                let value = match parse_integer(token.as_slice()) {
                    ParsedInteger::Value(value) => value,
                    ParsedInteger::PositiveOverflow => {
                        return Err(
                            ParseArgumentError::ConstantTooBig {
                                got: string_from_chars(token.as_slice()),
                                maximum: DigitInteger::range_of_digits(maximum_digits),
                            },
                        );
                    },
                    ParsedInteger::NegativeOverflow => {
                        return Err(
                            ParseArgumentError::ConstantTooSmall {
                                got: string_from_chars(token.as_slice()),
                                minimum: -DigitInteger::range_of_digits(maximum_digits),
                            },
                        );
                    },
                    ParsedInteger::Invalid => return Err(ParseArgumentError::IncorrectType),
                };

                match DigitInteger::new(value, maximum_digits) {
                    Ok(_) => Ok(value),
                    Err(error) => match error {
                        AssignIntegerError::ValueTooBig { maximum, .. }
                        | AssignIntegerError::ValueMuchTooBig { maximum, .. } => {
                            Err(
                                ParseArgumentError::ConstantTooBig {
                                    got: string_from_chars(token.as_slice()),
                                    maximum,
                                },
                            )
                        },
                        AssignIntegerError::ValueTooSmall { minimum, .. }
                        | AssignIntegerError::ValueMuchTooSmall { minimum, .. } => {
                            Err(
                                ParseArgumentError::ConstantTooSmall {
                                    got: string_from_chars(token.as_slice()),
                                    minimum,
                                },
                            )
                        },
                        AssignIntegerError::NumDigitsNotSupported => Err(ParseArgumentError::IncorrectType),
                    },
                }
            },
            ArgumentIntermediate::Comparison { .. } => Err(ParseArgumentError::IncorrectType),
        }
    }

    pub fn as_register(&self) -> (result: Result<u32, ParseArgumentError>)
        ensures
            match spec_as_register(self@) {
                Ok(register) => result == Ok::<u32, ParseArgumentError>(register),
                Err(error) => result matches Err(e) && e@ == error,
            },
    {
        match self {
            ArgumentIntermediate::Token(value) => {
                if value.len() == 1 {
                    match register_with_name(value[0]) {
                        Some(register) => Ok(register),
                        None => Err(ParseArgumentError::IncorrectType),
                    }
                } else {
                    Err(ParseArgumentError::IncorrectType)
                }
            },
            ArgumentIntermediate::Comparison { .. } => Err(ParseArgumentError::IncorrectType),
        }
    }

    pub fn as_number_source(&self, maximum_digits: u8) -> (result: Result<NumberSource, ParseArgumentError>)
        requires
            maximum_digits <= MAXIMUM_DIGITS,
        ensures
            match spec_as_number_source(self@, maximum_digits) {
                Ok(source) => result == Ok::<NumberSource, ParseArgumentError>(source),
                Err(error) => result matches Err(e) && e@ == error,
            },
    {
        let as_constant_error = match self.as_constant(maximum_digits) {
            Ok(constant) => return Ok(NumberSource::Constant(constant)),
            Err(error) => error,
        };

        let as_register_error = match self.as_register() {
            Ok(register) => return Ok(NumberSource::Register(register)),
            Err(error) => error,
        };

        Err(
            if matches!(as_constant_error, ParseArgumentError::IncorrectType) {
                as_register_error
            } else {
                as_constant_error
            },
        )
    }

    pub fn as_comparison(&self, maximum_digits: u8) -> (result: Result<Comparison, ParseArgumentError>)
        requires
            maximum_digits <= MAXIMUM_DIGITS,
        ensures
            match spec_as_comparison(self@, maximum_digits) {
                Ok(comparison) => result == Ok::<Comparison, ParseArgumentError>(comparison),
                Err(error) => result matches Err(e) && e@ == error,
            },
    {
        match self {
            ArgumentIntermediate::Token(_) => Err(ParseArgumentError::IncorrectType),
            ArgumentIntermediate::Comparison { ordering, invert, values } => {
                let lhs = match ArgumentIntermediate::Token(clone_chars(&values[0])).as_number_source(
                    maximum_digits,
                ) {
                    Ok(source) => source,
                    Err(error) => return Err(error),
                };
                let rhs = match ArgumentIntermediate::Token(clone_chars(&values[1])).as_number_source(
                    maximum_digits,
                ) {
                    Ok(source) => source,
                    Err(error) => return Err(error),
                };
                Ok(Comparison { ordering: *ordering, invert: *invert, values: [lhs, rhs] })
            },
        }
    }

    pub fn as_value(&self, maximum_digits: u8) -> (result: Result<Argument, ParseArgumentError>)
        requires
            maximum_digits <= MAXIMUM_DIGITS,
        ensures
            match spec_as_value(self@, maximum_digits) {
                Ok(argument) => result == Ok::<Argument, ParseArgumentError>(argument),
                Err(error) => result matches Err(e) && e@ == error,
            },
    {
        let as_source_error = match self.as_number_source(maximum_digits) {
            Ok(source) => return Ok(Argument::Number(source)),
            Err(error) => error,
        };

        let as_comparison_error = match self.as_comparison(maximum_digits) {
            Ok(comparison) => return Ok(Argument::Comparison(comparison)),
            Err(error) => error,
        };

        Err(
            if matches!(as_source_error, ParseArgumentError::IncorrectType) {
                as_comparison_error
            } else {
                as_source_error
            },
        )
    }
}

/// An argument list as read from the words after the operation: each argument
/// a word, or a word, a comparison operator and another word.
pub open spec fn spec_arguments(tokens: Seq<Seq<char>>) -> Result<Seq<ArgumentText>, ParseArgumentErrorView>
    decreases tokens.len(),
{
    if tokens.len() == 0 {
        Ok(Seq::empty())
    } else if tokens.len() >= 2 && spec_comparison_operator(tokens[1]) is Some {
        let (ordering, invert) = spec_comparison_operator(tokens[1]).unwrap();
        if tokens.len() >= 3 {
            match spec_arguments(tokens.skip(3)) {
                Ok(rest) => Ok(
                    seq![ArgumentText::Comparison { ordering, invert, values: (tokens[0], tokens[2]) }]
                        + rest,
                ),
                Err(error) => Err(error),
            }
        } else {
            Err(ParseArgumentErrorView::IncompleteComparison)
        }
    } else {
        match spec_arguments(tokens.skip(1)) {
            Ok(rest) => Ok(seq![ArgumentText::Token(tokens[0])] + rest),
            Err(error) => Err(error),
        }
    }
}

/// An instruction as the assembler first reads it: its kind, line, and
/// arguments as text.
pub struct InstructionText {
    pub kind: InstructionKind,
    pub line: u32,
    pub arguments: Seq<ArgumentText>,
}

/// What a line holds: an instruction, a label, or nothing.
pub enum LineText {
    Instruction(InstructionText),
    Label(Seq<char>),
    Empty,
}

#[derive(Clone, Debug)]
pub struct InstructionIntermediate {
    pub kind: InstructionKind,
    pub line: u32,
    pub arguments: Vec<ArgumentIntermediate>,
}

impl View for InstructionIntermediate {
    type V = InstructionText;

    open spec fn view(&self) -> InstructionText {
        InstructionText {
            kind: self.kind,
            line: self.line,
            arguments: self.arguments@.map_values(|argument: ArgumentIntermediate| argument@),
        }
    }
}

pub enum ParseInstructionResult {
    Instruction(InstructionIntermediate),
    Label(Vec<char>),
    Empty,
}

impl View for ParseInstructionResult {
    type V = LineText;

    open spec fn view(&self) -> LineText {
        match self {
            ParseInstructionResult::Instruction(instruction) => LineText::Instruction(instruction@),
            ParseInstructionResult::Label(label) => LineText::Label(label@),
            ParseInstructionResult::Empty => LineText::Empty,
        }
    }
}

/// The error for an argument count outside `minimum..=maximum`, if it is.
pub open spec fn spec_check_length(length: usize, minimum: usize, maximum: usize) -> Option<
    AssemblyErrorKindView,
> {
    if length < minimum {
        Some(AssemblyErrorKindView::TooFewArguments { got: length, minimum })
    } else if length > maximum {
        Some(AssemblyErrorKindView::TooManyArguments { got: length, maximum })
    } else {
        None
    }
}

/// The part of a line before its comment.
pub open spec fn spec_code_of(line: Seq<char>) -> Seq<char> {
    line.take(spec_position_of(line, ';') as int)
}

/// What a line of source holds, or the error in it.
pub open spec fn spec_from_line(
    line: Seq<char>,
    line_index: u32,
    table: InstructionKindMap<InstructionProperties>,
) -> Result<LineText, AssemblyErrorView> {
    let tokens = spec_tokens(spec_code_of(line));
    if tokens.len() == 0 {
        Ok(LineText::Empty)
    } else {
        match spec_arguments(tokens.drop_first()) {
            Err(error) => Err(spec_line_error(line_index, AssemblyErrorKindView::InvalidArgument(error))),
            Ok(arguments) => if tokens[0] == spec_label_keyword() {
                match spec_check_length(arguments.len() as usize, 1, 1) {
                    Some(kind) => Err(spec_line_error(line_index, kind)),
                    None => match arguments[0] {
                        ArgumentText::Token(label) => if spec_is_label_valid(label) {
                            Ok(LineText::Label(label))
                        } else {
                            Err(
                                spec_line_error(
                                    line_index,
                                    AssemblyErrorKindView::InvalidArgument(
                                        ParseArgumentErrorView::InvalidLabel(label),
                                    ),
                                ),
                            )
                        },
                        ArgumentText::Comparison { .. } => Err(
                            spec_line_error(
                                line_index,
                                AssemblyErrorKindView::UnexpectedArgument {
                                    got: arguments[0],
                                    expected: ArgumentRequirement::Instruction,
                                },
                            ),
                        ),
                    },
                }
            } else {
                match table.spec_instruction_with_name(tokens[0]) {
                    None => Err(
                        spec_line_error(line_index, AssemblyErrorKindView::NoSuchOperation(tokens[0])),
                    ),
                    Some(properties) => Ok(
                        LineText::Instruction(
                            InstructionText { kind: properties.kind, line: line_index, arguments },
                        ),
                    ),
                }
            },
        }
    }
}

/// A `;` is found after a run of characters holding none exactly where it
/// follows that run.
proof fn lemma_position_after_run(code: Seq<char>, rest: Seq<char>)
    requires
        !code.contains(';'),
    ensures
        spec_position_of(code + seq![';'] + rest, ';') == code.len(),
    decreases code.len(),
{
    if code.len() > 0 {
        assert(code[0] != ';');
        assert((code + seq![';'] + rest).drop_first() =~= code.drop_first() + seq![';'] + rest);
        assert forall|k: int| 0 <= k < code.drop_first().len() implies code.drop_first()[k] != ';' by {
            assert(code.drop_first()[k] == code[k + 1]);
        }
        lemma_position_after_run(code.drop_first(), rest);
    } else {
        assert((code + seq![';'] + rest)[0] == ';');
    }
}

/// Nothing from the first `;` on is code: the code of a line holds no `;`, and
/// a line holding none is all code, however a comment after it goes on, so
/// adding a comment to a line never changes what the line holds.
pub proof fn lemma_comments_ignored(code: Seq<char>, comment: Seq<char>, line_index: u32, table: InstructionKindMap<InstructionProperties>)
    requires
        !code.contains(';'),
    ensures
        !spec_code_of(code + seq![';'] + comment).contains(';'),
        spec_code_of(code + seq![';'] + comment) == code,
        spec_code_of(code) == code,
        spec_from_line(code + seq![';'] + comment, line_index, table) == spec_from_line(code, line_index, table),
{
    lemma_position_after_run(code, comment);
    let line = code + seq![';'] + comment;
    assert(line.take(code.len() as int) =~= code);
    lemma_position_of_absent(code);
    assert(code.take(code.len() as int) =~= code);
}

/// The code of any line is the start of it up to, and not including, its first
/// `;`: it holds no `;`, and the line goes on with a `;` unless the code is all
/// of it.
pub proof fn lemma_code_before_comment(line: Seq<char>)
    ensures
        spec_position_of(line, ';') <= line.len(),
        !spec_code_of(line).contains(';'),
        spec_code_of(line) == line.take(spec_code_of(line).len() as int),
        spec_code_of(line).len() < line.len() ==> line[spec_code_of(line).len() as int] == ';',
    decreases line.len(),
{
    let position = spec_position_of(line, ';');
    if line.len() > 0 && line[0] != ';' {
        lemma_code_before_comment(line.drop_first());
        let rest = spec_code_of(line.drop_first());
        assert(position == 1 + spec_position_of(line.drop_first(), ';'));
        assert(spec_code_of(line).len() == position);
        assert forall|k: int| 0 <= k < spec_code_of(line).len() implies spec_code_of(line)[k] != ';' by {
            if k > 0 {
                assert(spec_code_of(line)[k] == line[k]);
                assert(rest[k - 1] == line.drop_first()[k - 1]);
            }
        }
        if spec_code_of(line).len() < line.len() {
            assert(line[spec_code_of(line).len() as int] == line.drop_first()[rest.len() as int]);
        }
    } else {
        assert(spec_code_of(line) =~= Seq::<char>::empty());
    }
}

/// A run holding no `;` has none to find.
proof fn lemma_position_of_absent(code: Seq<char>)
    requires
        !code.contains(';'),
    ensures
        spec_position_of(code, ';') == code.len(),
    decreases code.len(),
{
    if code.len() > 0 {
        assert(code[0] != ';');
        assert forall|k: int| 0 <= k < code.drop_first().len() implies code.drop_first()[k] != ';' by {
            assert(code.drop_first()[k] == code[k + 1]);
        }
        lemma_position_of_absent(code.drop_first());
    }
}

/// Whether a slot with `requirement` is left empty: it takes no argument, or
/// it may stay empty and the arguments given leave room to skip it.
pub open spec fn spec_skips_slot(
    requirement: ArgumentRequirement,
    maximum: nat,
    skipped: nat,
    length: nat,
) -> bool {
    requirement is Empty || (requirement.spec_allows_empty() && maximum > skipped + length)
}

/// How many of the slots from `slot` on take one of `length` arguments.
pub open spec fn spec_slots_taken(
    requirements: Seq<ArgumentRequirement>,
    maximum: nat,
    length: nat,
    slot: nat,
    skipped: nat,
) -> nat
    decreases NUM_ARGUMENTS - slot,
{
    if slot >= NUM_ARGUMENTS {
        0
    } else if spec_skips_slot(requirements[slot as int], maximum, skipped, length) {
        spec_slots_taken(requirements, maximum, length, slot + 1, skipped + 1)
    } else {
        1 + spec_slots_taken(requirements, maximum, length, slot + 1, skipped)
    }
}

/// Whether any argument count the properties accept fills the slots that
/// take an argument.
pub open spec fn spec_fills_slots(properties: InstructionProperties) -> bool {
    forall|length: nat|
        properties.spec_minimum_arguments() <= length <= properties.spec_maximum_arguments() ==> #[trigger] spec_slots_taken(
            properties.arguments@,
            properties.spec_maximum_arguments(),
            length,
            0,
            0,
        ) <= length
}

/// Reads the arguments into the slots from `slot` on: an empty argument for
/// each skipped slot, and the next argument, read for the slot's requirement,
/// for every other.
#[verifier::opaque]
pub open spec fn spec_parse_slots(
    arguments: Seq<ArgumentText>,
    requirements: Seq<ArgumentRequirement>,
    maximum: nat,
    labels: Seq<(Seq<char>, LabelIndex)>,
    maximum_digits: u8,
    slot: nat,
    skipped: nat,
    next: nat,
) -> Result<Seq<Argument>, AssemblyErrorKindView>
    decreases NUM_ARGUMENTS - slot,
{
    if slot >= NUM_ARGUMENTS {
        Ok(Seq::empty())
    } else if spec_skips_slot(requirements[slot as int], maximum, skipped, arguments.len()) {
        match spec_parse_slots(
            arguments,
            requirements,
            maximum,
            labels,
            maximum_digits,
            slot + 1,
            skipped + 1,
            next,
        ) {
            Ok(rest) => Ok(seq![Argument::Empty] + rest),
            Err(error) => Err(error),
        }
    } else if next >= arguments.len() {
        Err(AssemblyErrorKindView::InvalidArgument(ParseArgumentErrorView::OutOfTokens))
    } else {
        match spec_as_requirement(arguments[next as int], requirements[slot as int], labels, maximum_digits) {
            Ok(argument) => match spec_parse_slots(
                arguments,
                requirements,
                maximum,
                labels,
                maximum_digits,
                slot + 1,
                skipped,
                next + 1,
            ) {
                Ok(rest) => Ok(seq![argument] + rest),
                Err(error) => Err(error),
            },
            Err(error) => Err(spec_slot_error(arguments[next as int], requirements[slot as int], error)),
        }
    }
}

/// Parses an instruction read from its line into the instruction itself.
pub open spec fn spec_parse_instruction(
    instruction: InstructionText,
    labels: Seq<(Seq<char>, LabelIndex)>,
    table: InstructionKindMap<InstructionProperties>,
    maximum_digits: u8,
) -> Result<Instruction, AssemblyErrorView> {
    let properties = table.spec_get(instruction.kind);
    let minimum = properties.spec_minimum_arguments();
    let maximum = properties.spec_maximum_arguments();
    match spec_check_length(instruction.arguments.len() as usize, minimum as usize, maximum as usize) {
        Some(kind) => Err(spec_line_error(instruction.line, kind)),
        None => match spec_parse_slots(
            instruction.arguments,
            properties.arguments@,
            maximum,
            labels,
            maximum_digits,
            0,
            0,
            0,
        ) {
            Err(kind) => Err(spec_line_error(instruction.line, kind)),
            Ok(arguments) => Ok(
                Instruction {
                    kind: instruction.kind,
                    line: instruction.line,
                    arguments: [arguments[0], arguments[1], arguments[2]],
                },
            ),
        },
    }
}

/// Whether `token` is the label pseudo-instruction.
fn is_label_keyword(token: &[char]) -> (result: bool)
    ensures
        result == (token@ == spec_label_keyword()),
{
    let result = token.len() == 3 && token[0] == 'L' && token[1] == 'B' && token[2] == 'L';
    proof {
        if token@.len() == 3 && token@[0] == 'L' && token@[1] == 'B' && token@[2] == 'L' {
            assert(token@ =~= spec_label_keyword());
        }
    }
    result
}

/// Prepends `first` to a successful argument list.
pub open spec fn spec_prepend(
    first: Seq<ArgumentText>,
    rest: Result<Seq<ArgumentText>, ParseArgumentErrorView>,
) -> Result<Seq<ArgumentText>, ParseArgumentErrorView> {
    match rest {
        Ok(rest) => Ok(first + rest),
        Err(error) => Err(error),
    }
}

/// One argument taken from the tokens at `position` is the first of the
/// arguments read from there on.
proof fn lemma_pop_step(tokens: Seq<Seq<char>>, position: int)
    requires
        0 <= position <= tokens.len(),
    ensures
        match spec_pop_argument(tokens, position) {
            Ok((argument, next)) => {
                &&& position < next <= tokens.len()
                &&& spec_arguments(tokens.skip(position)) == spec_prepend(
                    seq![argument],
                    spec_arguments(tokens.skip(next)),
                )
            },
            Err(error) => if error is OutOfTokens {
                position == tokens.len()
            } else {
                spec_arguments(tokens.skip(position)) == Err::<Seq<ArgumentText>, _>(error)
            },
        },
{
    let rest = tokens.skip(position);
    if position < tokens.len() {
        assert(rest[0] == tokens[position]);
        if position + 1 < tokens.len() {
            assert(rest[1] == tokens[position + 1]);
        }
        if position + 2 < tokens.len() {
            assert(rest[2] == tokens[position + 2]);
        }
        assert(rest.skip(1) =~= tokens.skip(position + 1));
        if rest.len() >= 3 {
            assert(rest.skip(3) =~= tokens.skip(position + 3));
        }
    }
}

impl InstructionIntermediate {
    /// Reads a line of source: an instruction, a label, or nothing.
    pub fn from_line(
        source_line: &[char],
        line_index: u32,
        target_computer: &Computer,
    ) -> (result: Result<ParseInstructionResult, ProgramAssemblyError>)
        ensures
            match spec_from_line(source_line@, line_index, target_computer.instruction_properties) {
                Ok(line) => result matches Ok(r) && r@ == line,
                Err(error) => result matches Err(e) && e@ == error,
            },
    {
        let comment = position_of(source_line, COMMENT_SEPARATOR);
        let code = chars_between(source_line, 0, comment);
        proof {
            assert(code@ =~= spec_code_of(source_line@));
        }
        let tokens = tokens_of(code.as_slice());
        let ghost words = spec_token_views(tokens@);
        proof {
            assert(words =~= spec_tokens(spec_code_of(source_line@)));
        }

        if tokens.len() == 0 {
            return Ok(ParseInstructionResult::Empty);
        }

        let mut arguments: Vec<ArgumentIntermediate> = Vec::new();
        let mut position: usize = 1;
        proof {
            assert(words.skip(1) =~= words.drop_first());
            assert(spec_arguments(words.skip(1)) == spec_prepend(Seq::empty(), spec_arguments(words.skip(1)))) by {
                match spec_arguments(words.skip(1)) {
                    Ok(rest) => assert(Seq::<ArgumentText>::empty() + rest =~= rest),
                    Err(_) => {},
                }
            }
        }

        loop
            invariant_except_break
                1 <= position <= tokens@.len(),
                spec_arguments(words.drop_first()) == spec_prepend(
                    arguments@.map_values(|argument: ArgumentIntermediate| argument@),
                    spec_arguments(words.skip(position as int)),
                ),
            invariant
                words == spec_token_views(tokens@),
                words == spec_tokens(spec_code_of(source_line@)),
                tokens@.len() > 0,
            ensures
                spec_arguments(words.drop_first()) == Ok::<_, ParseArgumentErrorView>(
                    arguments@.map_values(|argument: ArgumentIntermediate| argument@),
                ),
            decreases tokens@.len() - position,
        {
            let ghost before = position;
            proof {
                lemma_pop_step(words, position as int);
            }
            match ArgumentIntermediate::pop_from_tokens(&tokens, &mut position) {
                Ok(argument) => {
                    proof {
                        let seen = arguments@.map_values(|argument: ArgumentIntermediate| argument@);
                        assert(arguments@.push(argument).map_values(
                            |argument: ArgumentIntermediate| argument@,
                        ) =~= seen + seq![argument@]);
                        match spec_arguments(words.skip(position as int)) {
                            Ok(rest) => assert(seen + (seq![argument@] + rest) =~= seen + seq![argument@]
                                + rest),
                            Err(_) => {},
                        }
                    }
                    arguments.push(argument);
                },
                Err(error) => match error {
                    ParseArgumentError::OutOfTokens => {
                        proof {
                            assert(words.skip(before as int) =~= Seq::<Seq<char>>::empty());
                            assert(arguments@.map_values(|argument: ArgumentIntermediate| argument@)
                                + Seq::<ArgumentText>::empty() =~= arguments@.map_values(
                                |argument: ArgumentIntermediate| argument@,
                            ));
                        }
                        break;
                    },
                    _ => {
                        proof {
                            assert(spec_arguments(words.skip(before as int)) == Err::<Seq<ArgumentText>, _>(error@));
                            assert(spec_arguments(words.drop_first()) == Err::<Seq<ArgumentText>, _>(error@));
                        }
                        return Err(line_error(line_index, ProgramAssemblyErrorKind::InvalidArgument(error)));
                    },
                },
            }
        }

        let ghost argument_texts = arguments@.map_values(|argument: ArgumentIntermediate| argument@);
        assert(spec_arguments(words.drop_first()) == Ok::<_, ParseArgumentErrorView>(argument_texts));

        if is_label_keyword(tokens[0].as_slice()) {
            match Self::check_argument_length(arguments.len(), 1, 1, line_index) {
                Ok(()) => {},
                Err(error) => return Err(error),
            }

            let argument = &arguments[0];
            assert(argument_texts[0] == argument@);

            let label = match argument {
                ArgumentIntermediate::Token(label) => label,
                ArgumentIntermediate::Comparison { .. } => {
                    return Err(
                        line_error(
                            line_index,
                            ProgramAssemblyErrorKind::UnexpectedArgument {
                                got: argument.to_owned(),
                                expected: ArgumentRequirement::Instruction,
                            },
                        ),
                    );
                },
            };

            return if is_label_valid(label.as_slice()) {
                Ok(ParseInstructionResult::Label(clone_chars(label)))
            } else {
                Err(
                    line_error(
                        line_index,
                        ProgramAssemblyErrorKind::InvalidArgument(
                            ParseArgumentError::InvalidLabel(string_from_chars(label.as_slice())),
                        ),
                    ),
                )
            };
        }

        let instruction_properties = match target_computer.instruction_properties.properties_named(
            tokens[0].as_slice(),
        ) {
            Some(properties) => properties,
            None => {
                return Err(
                    line_error(
                        line_index,
                        ProgramAssemblyErrorKind::NoSuchOperation(string_from_chars(tokens[0].as_slice())),
                    ),
                );
            },
        };

        Ok(
            ParseInstructionResult::Instruction(
                InstructionIntermediate { kind: instruction_properties.kind, line: line_index, arguments },
            ),
        )
    }

    fn check_argument_length(length: usize, minimum: usize, maximum: usize, line: u32) -> (result: Result<
        (),
        ProgramAssemblyError,
    >)
        ensures
            match spec_check_length(length, minimum, maximum) {
                Some(kind) => result matches Err(e) && e@ == spec_line_error(line, kind),
                None => result is Ok,
            },
    {
        if length < minimum {
            Err(line_error(line, ProgramAssemblyErrorKind::TooFewArguments { got: length, minimum }))
        } else if length > maximum {
            Err(line_error(line, ProgramAssemblyErrorKind::TooManyArguments { got: length, maximum }))
        } else {
            Ok(())
        }
    }
}

/// A successful list of slots with `done` in front.
pub open spec fn spec_after(
    done: Seq<Argument>,
    rest: Result<Seq<Argument>, AssemblyErrorKindView>,
) -> Result<Seq<Argument>, AssemblyErrorKindView> {
    match rest {
        Ok(rest) => Ok(done + rest),
        Err(error) => Err(error),
    }
}

/// The error for an argument that cannot be read for its slot: the argument
/// itself when it has the wrong type, else what went wrong reading it.
pub open spec fn spec_slot_error(
    argument: ArgumentText,
    requirement: ArgumentRequirement,
    error: ParseArgumentErrorView,
) -> AssemblyErrorKindView {
    if error is IncorrectType {
        AssemblyErrorKindView::UnexpectedArgument { got: argument, expected: requirement }
    } else {
        AssemblyErrorKindView::InvalidArgument(error)
    }
}

fn slot_error(
    argument: &ArgumentIntermediate,
    requirement: ArgumentRequirement,
    error: ParseArgumentError,
    line: u32,
) -> (result: ProgramAssemblyError)
    ensures
        result@ == spec_line_error(line, spec_slot_error(argument@, requirement, error@)),
{
    if matches!(error, ParseArgumentError::IncorrectType) {
        line_error(
            line,
            ProgramAssemblyErrorKind::UnexpectedArgument { got: argument.to_owned(), expected: requirement },
        )
    } else {
        line_error(line, ProgramAssemblyErrorKind::InvalidArgument(error))
    }
}

/// One slot of reading arguments into slots.
proof fn lemma_parse_slots_step(
    arguments: Seq<ArgumentText>,
    requirements: Seq<ArgumentRequirement>,
    maximum: nat,
    labels: Seq<(Seq<char>, LabelIndex)>,
    maximum_digits: u8,
    slot: nat,
    skipped: nat,
    next: nat,
)
    requires
        slot < NUM_ARGUMENTS,
    ensures
        spec_parse_slots(arguments, requirements, maximum, labels, maximum_digits, slot, skipped, next)
            == if spec_skips_slot(requirements[slot as int], maximum, skipped, arguments.len()) {
            spec_after(
                seq![Argument::Empty],
                spec_parse_slots(
                    arguments,
                    requirements,
                    maximum,
                    labels,
                    maximum_digits,
                    slot + 1,
                    skipped + 1,
                    next,
                ),
            )
        } else if next >= arguments.len() {
            Err(AssemblyErrorKindView::InvalidArgument(ParseArgumentErrorView::OutOfTokens))
        } else {
            match spec_as_requirement(arguments[next as int], requirements[slot as int], labels, maximum_digits) {
                Ok(argument) => spec_after(
                    seq![argument],
                    spec_parse_slots(
                        arguments,
                        requirements,
                        maximum,
                        labels,
                        maximum_digits,
                        slot + 1,
                        skipped,
                        next + 1,
                    ),
                ),
                Err(error) => Err(spec_slot_error(arguments[next as int], requirements[slot as int], error)),
            }
        },
{
    reveal(spec_parse_slots);
}

/// Putting `first` and then `second` in front is putting both in front.
proof fn lemma_after_after(
    first: Seq<Argument>,
    second: Seq<Argument>,
    rest: Result<Seq<Argument>, AssemblyErrorKindView>,
)
    ensures
        spec_after(first, spec_after(second, rest)) == spec_after(first + second, rest),
{
    if let Ok(r) = rest {
        assert(first + (second + r) =~= first + second + r);
    }
}

impl InstructionIntermediate {
    /// Reads the instruction's arguments into its slots, resolving labels to
    /// instruction positions.
    pub fn parse(self, labels: &Vec<(Vec<char>, LabelIndex)>, target_computer: &Computer) -> (result: Result<
        Instruction,
        ProgramAssemblyError,
    >)
        requires
            target_computer.maximum_digits <= MAXIMUM_DIGITS,
            spec_fills_slots(target_computer.instruction_properties.spec_get(self.kind)),
        ensures
            match spec_parse_instruction(
                self@,
                spec_label_views(labels@),
                target_computer.instruction_properties,
                target_computer.maximum_digits,
            ) {
                Ok(instruction) => result == Ok::<Instruction, ProgramAssemblyError>(instruction),
                Err(error) => result matches Err(e) && e@ == error,
            },
    {
        let properties = target_computer.instruction_properties.get(self.kind);
        let ghost table = target_computer.instruction_properties;
        let ghost texts = self@.arguments;
        let ghost requirements = properties.arguments@;
        let ghost label_views = spec_label_views(labels@);
        let digits = target_computer.maximum_digits;

        let min_arguments = properties.minimum_arguments();
        let max_arguments = properties.maximum_arguments();

        match Self::check_argument_length(self.arguments.len(), min_arguments, max_arguments, self.line) {
            Ok(()) => {},
            Err(error) => return Err(error),
        }
        let length = self.arguments.len();
        proof {
            assert(spec_slots_taken(requirements, max_arguments as nat, length as nat, 0, 0) <= length);
        }

        let mut skipped: usize = 0;
        let mut next: usize = 0;
        let mut arguments: [Argument; 3] = [Argument::Empty, Argument::Empty, Argument::Empty];
        let mut i: usize = 0;
        proof {
            reveal(spec_parse_slots);
            assert(arguments@.take(0) =~= Seq::<Argument>::empty());
            match spec_parse_slots(texts, requirements, max_arguments as nat, label_views, digits, 0, 0, 0) {
                Ok(rest) => assert(Seq::<Argument>::empty() + rest =~= rest),
                Err(_) => {},
            }
        }

        while i < NUM_ARGUMENTS
            invariant
                i <= NUM_ARGUMENTS,
                skipped <= i,
                next <= length,
                length == self.arguments@.len(),
                length <= max_arguments <= NUM_ARGUMENTS,
                *properties == table.spec_get(self.kind),
                table == target_computer.instruction_properties,
                requirements == properties.arguments@,
                texts == self@.arguments,
                label_views == spec_label_views(labels@),
                digits == target_computer.maximum_digits,
                digits <= MAXIMUM_DIGITS,
                max_arguments == properties.spec_maximum_arguments(),
                min_arguments == properties.spec_minimum_arguments(),
                min_arguments <= length,
                forall|j: int| i <= j < NUM_ARGUMENTS ==> arguments@[j] == Argument::Empty,
                next + spec_slots_taken(requirements, max_arguments as nat, length as nat, i as nat, skipped as nat)
                    == spec_slots_taken(requirements, max_arguments as nat, length as nat, 0, 0),
                spec_slots_taken(requirements, max_arguments as nat, length as nat, 0, 0) <= length,
                spec_parse_slots(texts, requirements, max_arguments as nat, label_views, digits, 0, 0, 0)
                    == spec_after(
                    arguments@.take(i as int),
                    spec_parse_slots(
                        texts,
                        requirements,
                        max_arguments as nat,
                        label_views,
                        digits,
                        i as nat,
                        skipped as nat,
                        next as nat,
                    ),
                ),
            decreases NUM_ARGUMENTS - i,
        {
            let requirement = properties.arguments[i];
            let ghost done = arguments@.take(i as int);
            proof {
                lemma_parse_slots_step(
                    texts,
                    requirements,
                    max_arguments as nat,
                    label_views,
                    digits,
                    i as nat,
                    skipped as nat,
                    next as nat,
                );
            }
            if requirement == ArgumentRequirement::Empty || requirement.allows_empty() && max_arguments
                > skipped + self.arguments.len() {
                proof {
                    assert(arguments@.take(i + 1) =~= done + seq![Argument::Empty]);
                    lemma_after_after(
                        done,
                        seq![Argument::Empty],
                        spec_parse_slots(
                            texts,
                            requirements,
                            max_arguments as nat,
                            label_views,
                            digits,
                            (i + 1) as nat,
                            (skipped + 1) as nat,
                            next as nat,
                        ),
                    );
                }
                skipped += 1;
            } else {
                let argument_intermediate = &self.arguments[next];
                proof {
                    assert(texts[next as int] == argument_intermediate@);
                }
                match argument_intermediate.as_requirement(requirement, labels, digits) {
                    Ok(argument) => {
                        arguments[i] = argument;
                        proof {
                            assert(arguments@.take(i + 1) =~= done + seq![argument]);
                            lemma_after_after(
                                done,
                                seq![argument],
                                spec_parse_slots(
                                    texts,
                                    requirements,
                                    max_arguments as nat,
                                    label_views,
                                    digits,
                                    (i + 1) as nat,
                                    skipped as nat,
                                    (next + 1) as nat,
                                ),
                            );
                        }
                        next += 1;
                    },
                    Err(error) => {
                        let ghost kind = spec_slot_error(texts[next as int], requirement, error@);
                        proof {
                            assert(spec_parse_slots(
                                texts,
                                requirements,
                                max_arguments as nat,
                                label_views,
                                digits,
                                0,
                                0,
                                0,
                            ) == Err::<Seq<Argument>, _>(kind));
                        }
                        return Err(slot_error(argument_intermediate, requirement, error, self.line));
                    },
                }
            }
            i += 1;
        }

        proof {
            reveal(spec_parse_slots);
            assert(arguments@.take(3) =~= arguments@);
            assert(arguments@ + Seq::<Argument>::empty() =~= arguments@);
            assert([arguments@[0], arguments@[1], arguments@[2]]@ =~= arguments@);
            assert([arguments@[0], arguments@[1], arguments@[2]] =~= arguments);
        }
        Ok(Instruction { kind: self.kind, line: self.line, arguments })
    }
}

/// What reading the lines of a source so far has found: the errors, the
/// instructions and the label definitions, each in line order.
pub struct LineScan {
    pub errors: Seq<AssemblyErrorView>,
    pub instructions: Seq<InstructionText>,
    pub labels: Seq<(Seq<char>, LabelIndex)>,
}

/// Reads the first `n` lines in order. A label points at the next
/// instruction: its index is the number of instructions read before it.
pub open spec fn spec_scan_lines(
    lines: Seq<Seq<char>>,
    table: InstructionKindMap<InstructionProperties>,
    n: nat,
) -> LineScan
    decreases n,
{
    if n == 0 {
        LineScan { errors: Seq::empty(), instructions: Seq::empty(), labels: Seq::empty() }
    } else {
        let scan = spec_scan_lines(lines, table, (n - 1) as nat);
        let line = (n - 1) as u32;
        match spec_from_line(lines[n - 1], line, table) {
            Err(error) => LineScan { errors: scan.errors.push(error), ..scan },
            Ok(LineText::Instruction(instruction)) => LineScan {
                instructions: scan.instructions.push(instruction),
                ..scan
            },
            Ok(LineText::Label(label)) => LineScan {
                labels: scan.labels.push(
                    (label, LabelIndex { index: scan.instructions.len() as u32, line }),
                ),
                ..scan
            },
            Ok(LineText::Empty) => scan,
        }
    }
}

/// Scanning `n` lines finds at most `n` instructions and labels.
proof fn lemma_scan_counts(lines: Seq<Seq<char>>, table: InstructionKindMap<InstructionProperties>, n: nat)
    ensures
        spec_scan_lines(lines, table, n).instructions.len() <= n,
        spec_scan_lines(lines, table, n).labels.len() <= n,
        spec_scan_lines(lines, table, n).errors.len() <= n,
    decreases n,
{
    if n > 0 {
        lemma_scan_counts(lines, table, (n - 1) as nat);
    }
}

/// Scanning `n` lines keeps the instructions in the order of their lines,
/// each on a line before `n`, and points every label at most one past the
/// last instruction found.
proof fn lemma_scan_order(lines: Seq<Seq<char>>, table: InstructionKindMap<InstructionProperties>, n: nat)
    requires
        n <= u32::MAX,
    ensures
        ({
            let scan = spec_scan_lines(lines, table, n);
            &&& forall|i: int, j: int|
                0 <= i < j < scan.instructions.len() ==> #[trigger] scan.instructions[i].line
                    < #[trigger] scan.instructions[j].line
            &&& forall|i: int| 0 <= i < scan.instructions.len() ==> #[trigger] scan.instructions[i].line < n
            &&& forall|k: int| 0 <= k < scan.labels.len() ==> #[trigger] scan.labels[k].1.index
                <= scan.instructions.len()
        }),
    decreases n,
{
    if n > 0 {
        lemma_scan_order(lines, table, (n - 1) as nat);
    }
}

/// A label found in a table whose labels all point at most at `bound` points
/// at most at `bound`.
proof fn lemma_label_lookup_within(labels: Seq<(Seq<char>, LabelIndex)>, label: Seq<char>, bound: int)
    requires
        forall|k: int| 0 <= k < labels.len() ==> #[trigger] labels[k].1.index <= bound,
    ensures
        spec_label_lookup(labels, label) matches Some(position) ==> position.index <= bound,
    decreases labels.len(),
{
    if labels.len() > 0 {
        let rest = labels.drop_last();
        assert forall|k: int| 0 <= k < rest.len() implies #[trigger] rest[k].1.index <= bound by {
            assert(rest[k] == labels[k]);
        }
        lemma_label_lookup_within(rest, label, bound);
    }
}

/// An argument read as a jump target is one of the labels' positions, so at
/// most `bound`.
proof fn lemma_requirement_within(
    argument: ArgumentText,
    requirement: ArgumentRequirement,
    labels: Seq<(Seq<char>, LabelIndex)>,
    maximum_digits: u8,
    bound: int,
)
    requires
        forall|k: int| 0 <= k < labels.len() ==> #[trigger] labels[k].1.index <= bound,
    ensures
        spec_as_requirement(argument, requirement, labels, maximum_digits) matches Ok(Argument::Instruction(target))
            ==> target <= bound,
{
    reveal(spec_as_requirement);
    match requirement {
        ArgumentRequirement::Instruction => {
            if let Ok(label) = spec_as_label(argument) {
                lemma_label_lookup_within(labels, label, bound);
            }
        },
        ArgumentRequirement::AnyValue | ArgumentRequirement::AnyValueOrEmpty => {
            assert(!(spec_as_value(argument, maximum_digits) matches Ok(Argument::Instruction(_))));
        },
        _ => {},
    }
}

/// The slots parsed from `slot` on are one argument each, and each jump
/// target among them is one of the labels' positions, so at most `bound`.
proof fn lemma_slots_within(
    arguments: Seq<ArgumentText>,
    requirements: Seq<ArgumentRequirement>,
    maximum: nat,
    labels: Seq<(Seq<char>, LabelIndex)>,
    maximum_digits: u8,
    slot: nat,
    skipped: nat,
    next: nat,
    bound: int,
)
    requires
        forall|k: int| 0 <= k < labels.len() ==> #[trigger] labels[k].1.index <= bound,
    ensures
        spec_parse_slots(arguments, requirements, maximum, labels, maximum_digits, slot, skipped, next) matches Ok(
            parsed,
        ) ==> {
            &&& parsed.len() == if slot >= NUM_ARGUMENTS { 0 } else { NUM_ARGUMENTS - slot }
            &&& forall|a: int|
                0 <= a < parsed.len() ==> (#[trigger] parsed[a] matches Argument::Instruction(target) ==> target
                    <= bound)
        },
    decreases NUM_ARGUMENTS - slot,
{
    reveal(spec_parse_slots);
    if slot < NUM_ARGUMENTS {
        if spec_skips_slot(requirements[slot as int], maximum, skipped, arguments.len()) {
            lemma_slots_within(arguments, requirements, maximum, labels, maximum_digits, slot + 1, skipped + 1, next, bound);
            if let Ok(rest) = spec_parse_slots(arguments, requirements, maximum, labels, maximum_digits, slot + 1, skipped + 1, next) {
                let parsed = seq![Argument::Empty] + rest;
                assert(spec_parse_slots(arguments, requirements, maximum, labels, maximum_digits, slot, skipped, next)
                    == Ok::<_, AssemblyErrorKindView>(parsed));
                assert forall|a: int| 0 <= a < parsed.len() implies (#[trigger] parsed[a] matches Argument::Instruction(
                    target,
                ) ==> target <= bound) by {
                    if a > 0 {
                        assert(parsed[a] == rest[a - 1]);
                    }
                }
            }
        } else if next < arguments.len() {
            lemma_slots_within(arguments, requirements, maximum, labels, maximum_digits, slot + 1, skipped, next + 1, bound);
            lemma_requirement_within(arguments[next as int], requirements[slot as int], labels, maximum_digits, bound);
            if let Ok(argument) = spec_as_requirement(arguments[next as int], requirements[slot as int], labels, maximum_digits) {
                if let Ok(rest) = spec_parse_slots(arguments, requirements, maximum, labels, maximum_digits, slot + 1, skipped, next + 1) {
                    let parsed = seq![argument] + rest;
                    assert(spec_parse_slots(arguments, requirements, maximum, labels, maximum_digits, slot, skipped, next)
                        == Ok::<_, AssemblyErrorKindView>(parsed));
                    assert forall|a: int| 0 <= a < parsed.len() implies (#[trigger] parsed[a] matches Argument::Instruction(
                        target,
                    ) ==> target <= bound) by {
                        if a == 0 {
                            assert(parsed[0] == argument);
                        } else {
                            assert(parsed[a] == rest[a - 1]);
                        }
                    }
                }
            }
        }
    }
}

/// Parsing instructions without an error keeps one instruction for each, on
/// its line, and each jump target is one of the labels' positions.
proof fn lemma_parse_all_within(
    instructions: Seq<InstructionText>,
    labels: Seq<(Seq<char>, LabelIndex)>,
    table: InstructionKindMap<InstructionProperties>,
    maximum_digits: u8,
    bound: int,
)
    requires
        forall|k: int| 0 <= k < labels.len() ==> #[trigger] labels[k].1.index <= bound,
    ensures
        ({
            let (parsed, errors) = spec_parse_all(instructions, labels, table, maximum_digits);
            errors.len() == 0 ==> {
                &&& parsed.len() == instructions.len()
                &&& forall|i: int| 0 <= i < parsed.len() ==> #[trigger] parsed[i].line == instructions[i].line
                &&& forall|i: int, a: int|
                    0 <= i < parsed.len() && 0 <= a < NUM_ARGUMENTS ==> (#[trigger] parsed[i].arguments@[a] matches Argument::Instruction(
                        target,
                    ) ==> target <= bound)
            }
        }),
    decreases instructions.len(),
{
    if instructions.len() > 0 {
        let rest = instructions.drop_last();
        lemma_parse_all_within(rest, labels, table, maximum_digits, bound);
        let text = instructions.last();
        let properties = table.spec_get(text.kind);
        lemma_slots_within(
            text.arguments,
            properties.arguments@,
            properties.spec_maximum_arguments(),
            labels,
            maximum_digits,
            0,
            0,
            0,
            bound,
        );
        let (parsed, errors) = spec_parse_all(instructions, labels, table, maximum_digits);
        let (before, _) = spec_parse_all(rest, labels, table, maximum_digits);
        if errors.len() == 0 {
            assert forall|i: int| 0 <= i < parsed.len() implies #[trigger] parsed[i].line == instructions[i].line by {
                if i < before.len() {
                    assert(parsed[i] == before[i]);
                    assert(rest[i] == instructions[i]);
                }
            }
            assert forall|i: int, a: int|
                0 <= i < parsed.len() && 0 <= a < NUM_ARGUMENTS implies (#[trigger] parsed[i].arguments@[a] matches Argument::Instruction(
                    target,
                ) ==> target <= bound) by {
                if i < before.len() {
                    assert(parsed[i] == before[i]);
                }
            }
        }
    }
}

/// Each instruction of the program sits on a later line than the one before.
pub open spec fn spec_lines_increase(program: Seq<Instruction>) -> bool {
    forall|i: int, j: int| 0 <= i < j < program.len() ==> #[trigger] program[i].line < #[trigger] program[j].line
}

/// Every jump of the program targets one of its instructions, or the end of
/// the program.
pub open spec fn spec_jumps_within(program: Seq<Instruction>) -> bool {
    forall|i: int, a: int|
        0 <= i < program.len() && 0 <= a < NUM_ARGUMENTS ==> (#[trigger] program[i].arguments@[a] matches Argument::Instruction(
            target,
        ) ==> target <= program.len())
}

/// The lines on which `label` is defined, in order.
pub open spec fn spec_lines_labeled(labels: Seq<(Seq<char>, LabelIndex)>, label: Seq<char>) -> Seq<u32>
    decreases labels.len(),
{
    if labels.len() == 0 {
        Seq::empty()
    } else {
        let rest = spec_lines_labeled(labels.drop_last(), label);
        if labels.last().0 == label {
            rest.push(labels.last().1.line)
        } else {
            rest
        }
    }
}

/// A label defined on some line is one of the labels.
proof fn lemma_labeled_exists(labels: Seq<(Seq<char>, LabelIndex)>, label: Seq<char>)
    requires
        spec_lines_labeled(labels, label).len() > 0,
    ensures
        exists|k: int| 0 <= k < labels.len() && labels[k].0 == label,
    decreases labels.len(),
{
    if labels.last().0 != label {
        lemma_labeled_exists(labels.drop_last(), label);
        let k = choose|k: int| 0 <= k < labels.drop_last().len() && labels.drop_last()[k].0 == label;
        assert(labels[k] == labels.drop_last()[k]);
    } else {
        assert(labels[labels.len() - 1].0 == label);
    }
}

/// Whether some label is defined more than once.
pub open spec fn spec_has_duplicate(labels: Seq<(Seq<char>, LabelIndex)>) -> bool {
    exists|k: int| 0 <= k < labels.len() && #[trigger] spec_lines_labeled(labels, labels[k].0).len() >= 2
}

/// `report` lists each label defined more than once, with the lines that
/// define it, in increasing order of label.
pub open spec fn spec_is_duplicate_report(
    labels: Seq<(Seq<char>, LabelIndex)>,
    report: Seq<(Seq<char>, Seq<u32>)>,
) -> bool {
    &&& forall|i: int, j: int| 0 <= i < j < report.len() ==> spec_chars_less(report[i].0, report[j].0)
    &&& forall|i: int|
        0 <= i < report.len() ==> (#[trigger] report[i]).1 == spec_lines_labeled(labels, report[i].0)
            && report[i].1.len() >= 2
    &&& forall|k: int|
        0 <= k < labels.len() && #[trigger] spec_lines_labeled(labels, labels[k].0).len() >= 2 ==> exists|
            i: int,
        | 0 <= i < report.len() && report[i].0 == labels[k].0
}

/// The errors reporting duplicate labels.
pub open spec fn spec_duplicate_errors(report: Seq<(Seq<char>, Seq<u32>)>) -> Seq<AssemblyErrorView> {
    report.map_values(
        |entry: (Seq<char>, Seq<u32>)|
            AssemblyErrorView { lines: entry.1, kind: AssemblyErrorKindView::DuplicateLabel(entry.0) },
    )
}

/// Parses each instruction in order: the instructions that parse, and the
/// errors of those that do not.
pub open spec fn spec_parse_all(
    instructions: Seq<InstructionText>,
    labels: Seq<(Seq<char>, LabelIndex)>,
    table: InstructionKindMap<InstructionProperties>,
    maximum_digits: u8,
) -> (Seq<Instruction>, Seq<AssemblyErrorView>)
    decreases instructions.len(),
{
    if instructions.len() == 0 {
        (Seq::empty(), Seq::empty())
    } else {
        let (parsed, errors) = spec_parse_all(instructions.drop_last(), labels, table, maximum_digits);
        match spec_parse_instruction(instructions.last(), labels, table, maximum_digits) {
            Ok(instruction) => (parsed.push(instruction), errors),
            Err(error) => (parsed, errors.push(error)),
        }
    }
}

/// An error for each of `sources` that names a register the registers lack.
pub open spec fn spec_source_errors(
    line: u32,
    sources: Seq<NumberSource>,
    registers: Seq<Option<RegisterView>>,
) -> Seq<AssemblyErrorView>
    decreases sources.len(),
{
    if sources.len() == 0 {
        Seq::empty()
    } else {
        let rest = spec_source_errors(line, sources.drop_last(), registers);
        match sources.last() {
            NumberSource::Register(register) => if spec_lookup(registers, register) is None {
                rest.push(spec_line_error(line, AssemblyErrorKindView::RegisterNotSupported(register)))
            } else {
                rest
            },
            NumberSource::Constant(_) => rest,
        }
    }
}

/// An error for each register the instruction names that the registers lack,
/// argument by argument.
pub open spec fn spec_instruction_register_errors(
    instruction: Instruction,
    registers: Seq<Option<RegisterView>>,
) -> Seq<AssemblyErrorView> {
    spec_source_errors(instruction.line, instruction.arguments@[0].spec_number_sources(), registers)
        + spec_source_errors(instruction.line, instruction.arguments@[1].spec_number_sources(), registers)
        + spec_source_errors(instruction.line, instruction.arguments@[2].spec_number_sources(), registers)
}

/// An error for each register the instructions name that the registers lack,
/// instruction by instruction.
pub open spec fn spec_register_errors(
    instructions: Seq<Instruction>,
    registers: Seq<Option<RegisterView>>,
) -> Seq<AssemblyErrorView>
    decreases instructions.len(),
{
    if instructions.len() == 0 {
        Seq::empty()
    } else {
        spec_register_errors(instructions.drop_last(), registers) + spec_instruction_register_errors(
            instructions.last(),
            registers,
        )
    }
}

/// The views of a list of assembly errors.
pub open spec fn spec_error_views(errors: Seq<ProgramAssemblyError>) -> Seq<AssemblyErrorView> {
    errors.map_values(|error: ProgramAssemblyError| error@)
}

/// The views of a duplicate-label report.
pub open spec fn spec_report_views(report: Seq<(Vec<char>, Vec<u32>)>) -> Seq<(Seq<char>, Seq<u32>)> {
    report.map_values(|entry: (Vec<char>, Vec<u32>)| (entry.0@, entry.1@))
}

/// The report's labels are in strictly increasing order.
pub open spec fn spec_report_sorted(report: Seq<(Seq<char>, Seq<u32>)>) -> bool {
    forall|i: int, j: int| 0 <= i < j < report.len() ==> spec_chars_less(report[i].0, report[j].0)
}

/// Inserting an entry between the labels below it and those above it keeps a
/// report sorted.
proof fn lemma_insert_sorted(report: Seq<(Seq<char>, Seq<u32>)>, position: int, entry: (Seq<char>, Seq<u32>))
    requires
        spec_report_sorted(report),
        0 <= position <= report.len(),
        forall|i: int| 0 <= i < position ==> spec_chars_less(#[trigger] report[i].0, entry.0),
        forall|i: int| position <= i < report.len() ==> spec_chars_less(entry.0, #[trigger] report[i].0),
    ensures
        spec_report_sorted(report.insert(position, entry)),
{
    let after = report.insert(position, entry);
    assert forall|i: int, j: int| 0 <= i < j < after.len() implies spec_chars_less(after[i].0, after[j].0) by {
        if i < position && j > position {
            assert(after[i] == report[i]);
            assert(after[j] == report[j - 1]);
        } else if i == position {
            assert(after[j] == report[j - 1]);
        } else if j == position {
            assert(after[i] == report[i]);
        } else if j < position {
            assert(after[i] == report[i] && after[j] == report[j]);
        } else {
            assert(after[i] == report[i - 1] && after[j] == report[j - 1]);
        }
    }
}

/// The lines on which `label` is defined.
fn lines_labeled(labels: &Vec<(Vec<char>, LabelIndex)>, label: &[char]) -> (result: Vec<u32>)
    ensures
        result@ == spec_lines_labeled(spec_label_views(labels@), label@),
{
    let mut result: Vec<u32> = Vec::new();
    let mut j: usize = 0;
    proof {
        assert(spec_label_views(labels@).take(0) =~= Seq::<(Seq<char>, LabelIndex)>::empty());
    }
    while j < labels.len()
        invariant
            j <= labels@.len(),
            result@ == spec_lines_labeled(spec_label_views(labels@).take(j as int), label@),
        decreases labels@.len() - j,
    {
        proof {
            assert(spec_label_views(labels@).take(j + 1).drop_last() =~= spec_label_views(labels@).take(
                j as int,
            ));
        }
        if chars_equal(labels[j].0.as_slice(), label) {
            result.push(labels[j].1.line);
        }
        j += 1;
    }
    proof {
        assert(spec_label_views(labels@).take(j as int) =~= spec_label_views(labels@));
    }
    result
}

/// Whether a label at an earlier position than `k` has the same text.
fn defined_before(labels: &Vec<(Vec<char>, LabelIndex)>, k: usize) -> (result: bool)
    requires
        k < labels@.len(),
    ensures
        result == exists|j: int| 0 <= j < k && labels@[j].0@ == labels@[k as int].0@,
{
    let mut j: usize = 0;
    while j < k
        invariant
            j <= k < labels@.len(),
            forall|i: int| 0 <= i < j ==> labels@[i].0@ != labels@[k as int].0@,
        decreases k - j,
    {
        if chars_equal(labels[j].0.as_slice(), labels[k].0.as_slice()) {
            return true;
        }
        j += 1;
    }
    false
}

/// Lists each label defined more than once, with the lines that define it, in
/// increasing order of label.
#[verifier::spinoff_prover]
#[verifier::rlimit(40)]
fn duplicate_report(labels: &Vec<(Vec<char>, LabelIndex)>) -> (result: Vec<(Vec<char>, Vec<u32>)>)
    ensures
        spec_is_duplicate_report(spec_label_views(labels@), spec_report_views(result@)),
{
    let ghost views = spec_label_views(labels@);
    let mut report: Vec<(Vec<char>, Vec<u32>)> = Vec::new();
    let mut k: usize = 0;
    while k < labels.len()
        invariant
            k <= labels@.len(),
            views == spec_label_views(labels@),
            spec_report_sorted(spec_report_views(report@)),
            forall|i: int|
                0 <= i < report@.len() ==> (#[trigger] spec_report_views(report@)[i]).1 == spec_lines_labeled(
                    views,
                    spec_report_views(report@)[i].0,
                ) && spec_report_views(report@)[i].1.len() >= 2,
            forall|i: int|
                0 <= i < report@.len() ==> exists|j: int|
                    0 <= j < k && #[trigger] views[j].0 == (#[trigger] spec_report_views(report@)[i]).0,
            forall|j: int|
                0 <= j < k && #[trigger] spec_lines_labeled(views, views[j].0).len() >= 2 ==> exists|
                    i: int,
                | 0 <= i < report@.len() && spec_report_views(report@)[i].0 == views[j].0,
        decreases labels@.len() - k,
    {
        let ghost before = spec_report_views(report@);
        proof {
            assert(views[k as int] == (labels@[k as int].0@, labels@[k as int].1));
        }
        if !defined_before(labels, k) {
            let lines = lines_labeled(labels, labels[k].0.as_slice());
            if lines.len() >= 2 {
                let label = clone_chars(&labels[k].0);
                let mut position: usize = 0;
                while position < report.len() && !chars_less(label.as_slice(), report[position].0.as_slice())
                    invariant
                        position <= report@.len(),
                        before == spec_report_views(report@),
                        forall|i: int| 0 <= i < position ==> !spec_chars_less(label@, #[trigger] before[i].0),
                    decreases report@.len() - position,
                {
                    position += 1;
                }
                proof {
                    assert forall|i: int| 0 <= i < before.len() implies before[i].0 != label@ by {
                        let j = choose|j: int| 0 <= j < k && #[trigger] views[j].0 == before[i].0;
                        assert(labels@[j].0@ == views[j].0);
                    }
                    assert forall|i: int| 0 <= i < position implies spec_chars_less(#[trigger] before[i].0, label@) by {
                        lemma_chars_less_total(before[i].0, label@);
                    }
                    assert forall|i: int| position <= i < before.len() implies spec_chars_less(label@, #[trigger] before[i].0) by {
                        if i > position {
                            lemma_chars_less_transitive(label@, before[position as int].0, before[i].0);
                        }
                    }
                    lemma_insert_sorted(before, position as int, (label@, lines@));
                }
                report.insert(position, (label, lines));
                proof {
                    assert(spec_report_views(report@) =~= before.insert(position as int, (views[k as int].0, lines@)));
                    let after = spec_report_views(report@);
                    assert forall|i: int| 0 <= i < report@.len() implies exists|j: int|
                        0 <= j < k + 1 && #[trigger] views[j].0 == (#[trigger] after[i]).0 by {
                        if i < position {
                            assert(after[i] == before[i]);
                            let j = choose|j: int| 0 <= j < k && #[trigger] views[j].0 == before[i].0;
                            assert(views[j].0 == after[i].0);
                        } else if i == position {
                            assert(views[k as int].0 == after[i].0);
                        } else {
                            assert(after[i] == before[i - 1]);
                            let j = choose|j: int| 0 <= j < k && #[trigger] views[j].0 == before[i - 1].0;
                            assert(views[j].0 == after[i].0);
                        }
                    }
                    assert forall|j: int| 0 <= j < k + 1 && #[trigger] spec_lines_labeled(views, views[j].0).len() >= 2 implies exists|
                        i: int,
                    | 0 <= i < report@.len() && after[i].0 == views[j].0 by {
                        if j == k {
                            assert(after[position as int].0 == views[j].0);
                        } else {
                            let i = choose|i: int| 0 <= i < before.len() && before[i].0 == views[j].0;
                            if i < position {
                                assert(after[i] == before[i]);
                            } else {
                                assert(after[i + 1] == before[i]);
                            }
                        }
                    }
                }
            }
        } else {
            proof {
                let j0 = choose|j: int| 0 <= j < k && labels@[j].0@ == labels@[k as int].0@;
                assert(views[j0].0 == views[k as int].0);
            }
        }
        k += 1;
    }
    report
}

/// What reading an argument for a slot gives fits the slot's requirement.
proof fn lemma_requirement_reading_fits(
    argument: ArgumentText,
    requirement: ArgumentRequirement,
    labels: Seq<(Seq<char>, LabelIndex)>,
    maximum_digits: u8,
)
    ensures
        spec_as_requirement(argument, requirement, labels, maximum_digits) matches Ok(read) ==> read.spec_matches_requirement(requirement),
{
    reveal(spec_as_requirement);
}

/// The slots read from `slot` on each fit their requirement: a skipped slot
/// is empty and may be.
proof fn lemma_parse_slots_fit(
    arguments: Seq<ArgumentText>,
    requirements: Seq<ArgumentRequirement>,
    maximum: nat,
    labels: Seq<(Seq<char>, LabelIndex)>,
    maximum_digits: u8,
    slot: nat,
    skipped: nat,
    next: nat,
)
    requires
        slot <= NUM_ARGUMENTS,
    ensures
        spec_parse_slots(arguments, requirements, maximum, labels, maximum_digits, slot, skipped, next) matches Ok(read) ==> {
            &&& read.len() == NUM_ARGUMENTS - slot
            &&& forall|k: int| 0 <= k < read.len() ==> (#[trigger] read[k]).spec_matches_requirement(requirements[slot + k])
        },
    decreases NUM_ARGUMENTS - slot,
{
    reveal(spec_parse_slots);
    if slot < NUM_ARGUMENTS {
        lemma_parse_slots_step(arguments, requirements, maximum, labels, maximum_digits, slot, skipped, next);
        lemma_parse_slots_fit(arguments, requirements, maximum, labels, maximum_digits, slot + 1, skipped + 1, next);
        lemma_parse_slots_fit(arguments, requirements, maximum, labels, maximum_digits, slot + 1, skipped, next + 1);
        if next < arguments.len() {
            lemma_requirement_reading_fits(arguments[next as int], requirements[slot as int], labels, maximum_digits);
        }
        if let Ok(read) = spec_parse_slots(arguments, requirements, maximum, labels, maximum_digits, slot, skipped, next) {
            assert forall|k: int| 0 <= k < read.len() implies (#[trigger] read[k]).spec_matches_requirement(requirements[slot + k]) by {
                if k > 0 {
                    if spec_skips_slot(requirements[slot as int], maximum, skipped, arguments.len()) {
                        let rest = spec_parse_slots(arguments, requirements, maximum, labels, maximum_digits, slot + 1, skipped + 1, next)->Ok_0;
                        assert(read[k] == rest[k - 1]);
                    } else {
                        let rest = spec_parse_slots(arguments, requirements, maximum, labels, maximum_digits, slot + 1, skipped, next + 1)->Ok_0;
                        assert(read[k] == rest[k - 1]);
                    }
                }
            }
        }
    }
}

/// A parsed instruction's arguments fit its kind's requirements.
proof fn lemma_parsed_instruction_fits(
    instruction: InstructionText,
    labels: Seq<(Seq<char>, LabelIndex)>,
    table: InstructionKindMap<InstructionProperties>,
    maximum_digits: u8,
)
    ensures
        spec_parse_instruction(instruction, labels, table, maximum_digits) matches Ok(parsed) ==> {
            &&& parsed.kind == instruction.kind
            &&& parsed.line == instruction.line
            &&& parsed.spec_arguments_match(table.spec_get(parsed.kind))
        },
{
    let properties = table.spec_get(instruction.kind);
    lemma_parse_slots_fit(
        instruction.arguments,
        properties.arguments@,
        properties.spec_maximum_arguments(),
        labels,
        maximum_digits,
        0,
        0,
        0,
    );
    if let Ok(parsed) = spec_parse_instruction(instruction, labels, table, maximum_digits) {
        let read = spec_parse_slots(
            instruction.arguments,
            properties.arguments@,
            properties.spec_maximum_arguments(),
            labels,
            maximum_digits,
            0,
            0,
            0,
        )->Ok_0;
        assert forall|i: int| 0 <= i < NUM_ARGUMENTS implies #[trigger] parsed.arguments@[i].spec_matches_requirement(
            properties.arguments@[i],
        ) by {
            assert(parsed.arguments@[i] == read[i]);
        }
    }
}

/// Every instruction that parses fits its kind, and the parsed ones are no
/// more than the instructions read.
proof fn lemma_parse_all_fits(
    instructions: Seq<InstructionText>,
    labels: Seq<(Seq<char>, LabelIndex)>,
    table: InstructionKindMap<InstructionProperties>,
    maximum_digits: u8,
)
    ensures
        spec_parse_all(instructions, labels, table, maximum_digits).0.len() <= instructions.len(),
        forall|i: int|
            0 <= i < spec_parse_all(instructions, labels, table, maximum_digits).0.len() ==> (#[trigger] spec_parse_all(
                instructions,
                labels,
                table,
                maximum_digits,
            ).0[i]).spec_arguments_match(
                table.spec_get(spec_parse_all(instructions, labels, table, maximum_digits).0[i].kind),
            ),
    decreases instructions.len(),
{
    if instructions.len() > 0 {
        lemma_parse_all_fits(instructions.drop_last(), labels, table, maximum_digits);
        lemma_parsed_instruction_fits(instructions.last(), labels, table, maximum_digits);
    }
}

/// When no source names a missing register, every register named is present.
proof fn lemma_no_source_errors(line: u32, sources: Seq<NumberSource>, registers: Seq<Option<RegisterView>>)
    requires
        spec_source_errors(line, sources, registers).len() == 0,
    ensures
        forall|j: int|
            0 <= j < sources.len() ==> ((#[trigger] sources[j]).spec_as_register() matches Some(register)
                ==> spec_lookup(registers, register) is Some),
    decreases sources.len(),
{
    if sources.len() > 0 {
        let rest = spec_source_errors(line, sources.drop_last(), registers);
        assert(rest.len() <= spec_source_errors(line, sources, registers).len());
        lemma_no_source_errors(line, sources.drop_last(), registers);
        assert forall|j: int| 0 <= j < sources.len() implies ((#[trigger] sources[j]).spec_as_register() matches Some(register)
            ==> spec_lookup(registers, register) is Some) by {
            if j < sources.len() - 1 {
                assert(sources[j] == sources.drop_last()[j]);
            }
        }
    }
}

/// When no instruction names a missing register, each names only registers
/// that are present.
proof fn lemma_no_register_errors(instructions: Seq<Instruction>, registers: Seq<Option<RegisterView>>)
    requires
        spec_register_errors(instructions, registers).len() == 0,
    ensures
        forall|i: int| 0 <= i < instructions.len() ==> (#[trigger] instructions[i]).spec_registers_present(registers),
    decreases instructions.len(),
{
    if instructions.len() > 0 {
        let last = instructions.last();
        let rest = spec_register_errors(instructions.drop_last(), registers);
        let own = spec_instruction_register_errors(last, registers);
        assert(rest.len() + own.len() == 0);
        lemma_no_register_errors(instructions.drop_last(), registers);
        lemma_no_source_errors(last.line, last.arguments@[0].spec_number_sources(), registers);
        lemma_no_source_errors(last.line, last.arguments@[1].spec_number_sources(), registers);
        lemma_no_source_errors(last.line, last.arguments@[2].spec_number_sources(), registers);
        assert forall|i: int| 0 <= i < instructions.len() implies (#[trigger] instructions[i]).spec_registers_present(registers) by {
            if i < instructions.len() - 1 {
                assert(instructions[i] == instructions.drop_last()[i]);
            } else {
                assert forall|k: int, j: int|
                    0 <= k < NUM_ARGUMENTS && 0 <= j < last.arguments@[k].spec_number_sources().len() implies ((
                    #[trigger] last.arguments@[k].spec_number_sources()[j]).spec_as_register() matches Some(register)
                    ==> spec_lookup(registers, register) is Some) by {
                    if k == 0 {
                    } else if k == 1 {
                    } else {
                    }
                }
            }
        }
    }
}

/// Every instruction kind's argument slots are filled by any argument count
/// it accepts.
pub open spec fn spec_table_fills_slots(table: InstructionKindMap<InstructionProperties>) -> bool {
    forall|kind: InstructionKind| #[trigger] spec_fills_slots(table.spec_get(kind))
}

/// The error for each instruction's registers the registers lack.
fn source_errors(
    errors: &mut Vec<ProgramAssemblyError>,
    line: u32,
    argument: &Argument,
    target_computer: &Computer,
)
    ensures
        spec_error_views(final(errors)@) == spec_error_views(old(errors)@) + spec_source_errors(
            line,
            argument.spec_number_sources(),
            target_computer.registers.spec_registers(),
        ),
{
    let sources = argument.number_sources();
    let ghost all = sources@;
    let ghost start = spec_error_views(errors@);
    let mut i: usize = 0;
    proof {
        assert(all.take(0) =~= Seq::<NumberSource>::empty());
        assert(start + Seq::<AssemblyErrorView>::empty() =~= start);
    }
    while i < sources.len()
        invariant
            i <= sources@.len(),
            all == sources@,
            all == argument.spec_number_sources(),
            spec_error_views(errors@) == start + spec_source_errors(
                line,
                all.take(i as int),
                target_computer.registers.spec_registers(),
            ),
        decreases sources@.len() - i,
    {
        proof {
            assert(all.take(i + 1).drop_last() =~= all.take(i as int));
        }
        if let Some(register) = sources[i].as_register() {
            if target_computer.registers.get(register).is_none() {
                let error = line_error(line, ProgramAssemblyErrorKind::RegisterNotSupported(register));
                proof {
                    assert(spec_error_views(errors@.push(error)) =~= spec_error_views(errors@).push(error@));
                }
                errors.push(error);
            }
        }
        i += 1;
    }
    proof {
        assert(all.take(i as int) =~= all);
    }
}

impl Program {
    /// Assembles `source_code` for `target_computer`. Lines are read first:
    /// every line error, then every label defined twice (by label), is
    /// reported; then every instruction that cannot be read for its kind; then
    /// every register named that the computer lacks.
    #[verifier::spinoff_prover]
    pub fn assemble_from(name: String, source_code: &str, target_computer: &Computer) -> (result: Result<
        Self,
        Vec<ProgramAssemblyError>,
    >)
        requires
            target_computer.maximum_digits <= MAXIMUM_DIGITS,
            spec_table_fills_slots(target_computer.instruction_properties),
            spec_lines_of(source_code@).len() < u32::MAX,
        ensures
            ({
                let table = target_computer.instruction_properties;
                let lines = spec_lines_of(source_code@);
                let scan = spec_scan_lines(lines, table, lines.len());
                let (parsed, parse_errors) = spec_parse_all(
                    scan.instructions,
                    scan.labels,
                    table,
                    target_computer.maximum_digits,
                );
                let register_errors = spec_register_errors(
                    parsed,
                    target_computer.registers.spec_registers(),
                );
                if scan.errors.len() > 0 || spec_has_duplicate(scan.labels) {
                    result matches Err(errors) && exists|report: Seq<(Seq<char>, Seq<u32>)>|
                        spec_is_duplicate_report(scan.labels, report) && spec_error_views(errors@)
                            == scan.errors + spec_duplicate_errors(report)
                } else if parse_errors.len() > 0 {
                    result matches Err(errors) && spec_error_views(errors@) == parse_errors
                } else if register_errors.len() > 0 {
                    result matches Err(errors) && spec_error_views(errors@) == register_errors
                } else {
                    result matches Ok(program) && program.name@ == name@ && program.instructions@
                        == parsed
                }
            }),
            result matches Ok(program) ==> {
                &&& program.instructions@.len() < u32::MAX
                &&& spec_program_fits(
                    program.instructions@,
                    target_computer.instruction_properties,
                    target_computer.registers.spec_registers(),
                )
                &&& spec_lines_increase(program.instructions@)
                &&& spec_jumps_within(program.instructions@)
            },
    {
        let ghost table = target_computer.instruction_properties;
        let source = chars_of(source_code);
        let lines = lines_of(source.as_slice());
        let ghost line_texts = spec_views(lines@);
        proof {
            let all_lines = spec_lines_of(source_code@);
            lemma_scan_order(all_lines, table, all_lines.len());
            let scan = spec_scan_lines(all_lines, table, all_lines.len());
            lemma_parse_all_within(
                scan.instructions,
                scan.labels,
                table,
                target_computer.maximum_digits,
                scan.instructions.len() as int,
            );
        }

        let mut errors: Vec<ProgramAssemblyError> = Vec::new();
        let mut instructions: Vec<InstructionIntermediate> = Vec::new();
        let mut labels: Vec<(Vec<char>, LabelIndex)> = Vec::new();

        let mut i: usize = 0;
        while i < lines.len()
            invariant
                i <= lines@.len(),
                lines@.len() < u32::MAX,
                line_texts == spec_views(lines@),
                table == target_computer.instruction_properties,
                ({
                    let scan = spec_scan_lines(line_texts, table, i as nat);
                    &&& spec_error_views(errors@) == scan.errors
                    &&& instructions@.map_values(|instruction: InstructionIntermediate| instruction@)
                        == scan.instructions
                    &&& spec_label_views(labels@) == scan.labels
                }),
            decreases lines@.len() - i,
        {
            proof {
                lemma_scan_counts(line_texts, table, i as nat);
                assert(line_texts[i as int] == lines@[i as int]@);
            }
            match InstructionIntermediate::from_line(lines[i].as_slice(), i as u32, target_computer) {
                Ok(ParseInstructionResult::Instruction(instruction)) => {
                    proof {
                        assert(instructions@.push(instruction).map_values(
                            |instruction: InstructionIntermediate| instruction@,
                        ) =~= instructions@.map_values(
                            |instruction: InstructionIntermediate| instruction@,
                        ).push(instruction@));
                    }
                    instructions.push(instruction);
                },
                Ok(ParseInstructionResult::Label(label)) => {
                    let position = LabelIndex { index: instructions.len() as u32, line: i as u32 };
                    proof {
                        assert(spec_label_views(labels@.push((label, position))) =~= spec_label_views(
                            labels@,
                        ).push((label@, position)));
                    }
                    labels.push((label, position));
                },
                Ok(ParseInstructionResult::Empty) => {},
                Err(error) => {
                    proof {
                        assert(spec_error_views(errors@.push(error)) =~= spec_error_views(errors@).push(
                            error@,
                        ));
                    }
                    errors.push(error);
                },
            }
            i += 1;
        }

        let ghost scan = spec_scan_lines(line_texts, table, lines@.len() as nat);
        let ghost label_views = spec_label_views(labels@);
        let ghost line_errors = spec_error_views(errors@);

        let report = duplicate_report(&labels);
        let ghost report_views = spec_report_views(report@);
        let mut r: usize = 0;
        proof {
            assert(report_views.take(0) =~= Seq::<(Seq<char>, Seq<u32>)>::empty());
            assert(line_errors + spec_duplicate_errors(report_views.take(0)) =~= line_errors);
        }
        while r < report.len()
            invariant
                r <= report@.len(),
                report_views == spec_report_views(report@),
                spec_error_views(errors@) == line_errors + spec_duplicate_errors(report_views.take(r as int)),
            decreases report@.len() - r,
        {
            let lines_of_label = clone_lines(&report[r].1);
            let error = ProgramAssemblyError {
                lines: lines_of_label,
                kind: ProgramAssemblyErrorKind::DuplicateLabel(string_from_chars(report[r].0.as_slice())),
            };
            proof {
                assert(report_views[r as int] == (report@[r as int].0@, report@[r as int].1@));
                assert(spec_duplicate_errors(report_views.take(r + 1)) =~= spec_duplicate_errors(
                    report_views.take(r as int),
                ).push(error@));
                assert(spec_error_views(errors@.push(error)) =~= spec_error_views(errors@).push(error@));
            }
            errors.push(error);
            r += 1;
        }
        proof {
            assert(report_views.take(r as int) =~= report_views);
            assert(spec_is_duplicate_report(scan.labels, report_views));
            assert(spec_error_views(errors@) == scan.errors + spec_duplicate_errors(report_views));
            if report_views.len() > 0 {
                lemma_labeled_exists(scan.labels, report_views[0].0);
                let k = choose|k: int| 0 <= k < scan.labels.len() && scan.labels[k].0 == report_views[0].0;
                assert(spec_lines_labeled(scan.labels, scan.labels[k].0).len() >= 2);
            }
            if spec_has_duplicate(scan.labels) {
                let k = choose|k: int|
                    0 <= k < scan.labels.len() && #[trigger] spec_lines_labeled(scan.labels, scan.labels[k].0).len() >= 2;
                assert(report_views.len() > 0);
            }
        }

        if errors.len() > 0 {
            return Err(errors);
        }

        let mut program = Self::new_empty(name);
        let ghost texts = instructions@.map_values(|instruction: InstructionIntermediate| instruction@);
        let count = instructions.len();
        assert(texts.len() == count);
        let mut k: usize = 0;
        proof {
            assert(texts.take(0) =~= Seq::<InstructionText>::empty());
        }
        while instructions.len() > 0
            invariant
                k + instructions@.len() == texts.len(),
                texts.len() <= usize::MAX,
                instructions@.map_values(|instruction: InstructionIntermediate| instruction@) == texts.skip(
                    k as int,
                ),
                table == target_computer.instruction_properties,
                label_views == spec_label_views(labels@),
                spec_table_fills_slots(table),
                target_computer.maximum_digits <= MAXIMUM_DIGITS,
                program.name@ == name@,
                ({
                    let (parsed, parse_errors) = spec_parse_all(
                        texts.take(k as int),
                        label_views,
                        table,
                        target_computer.maximum_digits,
                    );
                    &&& program.instructions@ == parsed
                    &&& spec_error_views(errors@) == parse_errors
                }),
            decreases instructions@.len(),
        {
            let ghost remaining = instructions@;
            let instruction = instructions.remove(0);
            proof {
                assert forall|j: int| 0 <= j < instructions@.len() implies #[trigger] instructions@[j]@
                    == texts.skip(k + 1)[j] by {
                    assert(instructions@[j] == remaining[j + 1]);
                    assert(remaining.map_values(|instruction: InstructionIntermediate| instruction@)[j + 1]
                        == texts.skip(k as int)[j + 1]);
                }
                assert(texts[k as int] == instruction@) by {
                    assert(texts.skip(k as int)[0] == instruction@);
                }
                assert(texts.take(k + 1).drop_last() =~= texts.take(k as int));
                assert(texts.take(k + 1).last() == instruction@);
                assert(instructions@.map_values(|instruction: InstructionIntermediate| instruction@)
                    =~= texts.skip(k + 1));
                assert(spec_fills_slots(table.spec_get(instruction.kind)));
            }
            match instruction.parse(&labels, target_computer) {
                Ok(parsed) => program.instructions.push(parsed),
                Err(error) => {
                    proof {
                        assert(spec_error_views(errors@.push(error)) =~= spec_error_views(errors@).push(
                            error@,
                        ));
                    }
                    errors.push(error);
                },
            }
            k += 1;
        }
        proof {
            assert(texts.take(k as int) =~= texts);
        }

        if errors.len() > 0 {
            return Err(errors);
        }

        let ghost parsed = program.instructions@;
        let mut p: usize = 0;
        proof {
            assert(parsed.take(0) =~= Seq::<Instruction>::empty());
        }
        while p < program.instructions.len()
            invariant
                p <= parsed.len(),
                parsed == program.instructions@,
                spec_error_views(errors@) == spec_register_errors(
                    parsed.take(p as int),
                    target_computer.registers.spec_registers(),
                ),
            decreases parsed.len() - p,
        {
            let instruction = &program.instructions[p];
            let ghost before = spec_error_views(errors@);
            source_errors(&mut errors, instruction.line, &instruction.arguments[0], target_computer);
            source_errors(&mut errors, instruction.line, &instruction.arguments[1], target_computer);
            source_errors(&mut errors, instruction.line, &instruction.arguments[2], target_computer);
            proof {
                assert(parsed.take(p + 1).drop_last() =~= parsed.take(p as int));
                assert(parsed.take(p + 1).last() == *instruction);
                assert(spec_error_views(errors@) =~= before + spec_instruction_register_errors(
                    *instruction,
                    target_computer.registers.spec_registers(),
                ));
            }
            p += 1;
        }
        proof {
            assert(parsed.take(p as int) =~= parsed);
            lemma_parse_all_fits(texts, label_views, table, target_computer.maximum_digits);
            lemma_scan_counts(line_texts, table, lines@.len() as nat);
            if errors.len() == 0 {
                lemma_no_register_errors(parsed, target_computer.registers.spec_registers());
                assert forall|i: int| 0 <= i < parsed.len() implies {
                    &&& (#[trigger] parsed[i]).spec_arguments_match(table.spec_get(parsed[i].kind))
                    &&& parsed[i].spec_registers_present(target_computer.registers.spec_registers())
                } by {}
            }
        }

        if errors.len() == 0 {
            Ok(program)
        } else {
            Err(errors)
        }
    }
}

fn clone_lines(lines: &Vec<u32>) -> (result: Vec<u32>)
    ensures
        result@ == lines@,
{
    let mut result: Vec<u32> = Vec::new();
    let mut i: usize = 0;
    while i < lines.len()
        invariant
            i <= lines@.len(),
            result@ == lines@.take(i as int),
        decreases lines@.len() - i,
    {
        result.push(lines[i]);
        i += 1;
    }
    proof {
        assert(lines@.take(i as int) =~= lines@);
    }
    result
}

/// Every label of `a` is a label of `b`.
pub open spec fn spec_labels_within(a: Seq<(Seq<char>, Seq<u32>)>, b: Seq<(Seq<char>, Seq<u32>)>) -> bool {
    forall|i: int| 0 <= i < a.len() ==> #[trigger] spec_has_label(b, a[i].0)
}

/// Whether some entry of `report` has `label`.
pub open spec fn spec_has_label(report: Seq<(Seq<char>, Seq<u32>)>, label: Seq<char>) -> bool {
    exists|j: int| 0 <= j < report.len() && report[j].0 == label
}

/// A label of a sorted report that is in front of another's first label is
/// no label of that report's rest.
proof fn lemma_first_smallest(a: Seq<(Seq<char>, Seq<u32>)>, label: Seq<char>)
    requires
        spec_report_sorted(a),
        a.len() > 0,
        spec_has_label(a, label),
        !spec_chars_less(label, a[0].0),
    ensures
        a[0].0 == label || spec_chars_less(a[0].0, label),
{
    let j = choose|j: int| 0 <= j < a.len() && a[j].0 == label;
    if j > 0 {
        assert(spec_chars_less(a[0].0, a[j].0));
    }
}

/// Sorted reports with the same labels start with the same label.
proof fn lemma_same_first_label(a: Seq<(Seq<char>, Seq<u32>)>, b: Seq<(Seq<char>, Seq<u32>)>)
    requires
        spec_report_sorted(a),
        spec_report_sorted(b),
        spec_labels_within(a, b),
        spec_labels_within(b, a),
        a.len() > 0,
    ensures
        b.len() > 0,
        a[0].0 == b[0].0,
{
    assert(spec_has_label(b, a[0].0));
    assert(spec_has_label(a, b[0].0));
    lemma_chars_less_total(a[0].0, b[0].0);
    if spec_chars_less(a[0].0, b[0].0) {
        let j = choose|j: int| 0 <= j < b.len() && b[j].0 == a[0].0;
        if j > 0 {
            assert(spec_chars_less(b[0].0, b[j].0));
        }
    } else if spec_chars_less(b[0].0, a[0].0) {
        let i = choose|i: int| 0 <= i < a.len() && a[i].0 == b[0].0;
        if i > 0 {
            assert(spec_chars_less(a[0].0, a[i].0));
        }
    }
}

/// Dropping a shared first label keeps the rest of one sorted report's labels
/// within the other's rest.
proof fn lemma_rest_within(a: Seq<(Seq<char>, Seq<u32>)>, b: Seq<(Seq<char>, Seq<u32>)>)
    requires
        spec_report_sorted(a),
        spec_report_sorted(b),
        spec_labels_within(a, b),
        a.len() > 0,
        b.len() > 0,
        a[0].0 == b[0].0,
    ensures
        spec_labels_within(a.drop_first(), b.drop_first()),
{
    let ra = a.drop_first();
    let rb = b.drop_first();
    assert forall|x: int| 0 <= x < ra.len() implies #[trigger] spec_has_label(rb, ra[x].0) by {
        assert(ra[x] == a[x + 1]);
        assert(spec_has_label(b, a[x + 1].0));
        let y = choose|y: int| 0 <= y < b.len() && b[y].0 == a[x + 1].0;
        assert(spec_chars_less(a[0].0, a[x + 1].0));
        lemma_chars_less_total(a[0].0, a[0].0);
        assert(y != 0);
        assert(rb[y - 1] == b[y]);
    }
}

/// Two sorted reports with the same labels, whose lines each follow from the
/// label, are the same report.
proof fn lemma_sorted_reports_equal(
    labels: Seq<(Seq<char>, LabelIndex)>,
    a: Seq<(Seq<char>, Seq<u32>)>,
    b: Seq<(Seq<char>, Seq<u32>)>,
)
    requires
        spec_report_sorted(a),
        spec_report_sorted(b),
        forall|i: int| 0 <= i < a.len() ==> (#[trigger] a[i]).1 == spec_lines_labeled(labels, a[i].0),
        forall|i: int| 0 <= i < b.len() ==> (#[trigger] b[i]).1 == spec_lines_labeled(labels, b[i].0),
        spec_labels_within(a, b),
        spec_labels_within(b, a),
    ensures
        a == b,
    decreases a.len() + b.len(),
{
    if a.len() == 0 {
        if b.len() > 0 {
            assert(spec_has_label(a, b[0].0));
        }
        assert(a =~= b);
    } else {
        lemma_same_first_label(a, b);
        assert(a[0] == b[0]);
        let ra = a.drop_first();
        let rb = b.drop_first();
        lemma_rest_within(a, b);
        lemma_rest_within(b, a);
        assert forall|x: int| 0 <= x < ra.len() implies (#[trigger] ra[x]).1 == spec_lines_labeled(labels, ra[x].0) by {
            assert(ra[x] == a[x + 1]);
        }
        assert forall|y: int| 0 <= y < rb.len() implies (#[trigger] rb[y]).1 == spec_lines_labeled(labels, rb[y].0) by {
            assert(rb[y] == b[y + 1]);
        }
        lemma_sorted_reports_equal(labels, ra, rb);
        assert forall|x: int| 0 <= x < a.len() implies a[x] == b[x] by {
            if x > 0 {
                assert(a[x] == ra[x - 1]);
                assert(b[x] == rb[x - 1]);
            }
        }
        assert(a =~= b);
    }
}

/// The report of duplicate labels is determined by the labels: any two
/// reports for the same label definitions are equal.
pub proof fn lemma_duplicate_report_unique(
    labels: Seq<(Seq<char>, LabelIndex)>,
    a: Seq<(Seq<char>, Seq<u32>)>,
    b: Seq<(Seq<char>, Seq<u32>)>,
)
    requires
        spec_is_duplicate_report(labels, a),
        spec_is_duplicate_report(labels, b),
    ensures
        a == b,
{
    assert forall|i: int| 0 <= i < a.len() implies #[trigger] spec_has_label(b, a[i].0) by {
        lemma_labeled_exists(labels, a[i].0);
        let k = choose|k: int| 0 <= k < labels.len() && labels[k].0 == a[i].0;
        assert(spec_lines_labeled(labels, labels[k].0).len() >= 2);
    }
    assert forall|j: int| 0 <= j < b.len() implies #[trigger] spec_has_label(a, b[j].0) by {
        lemma_labeled_exists(labels, b[j].0);
        let k = choose|k: int| 0 <= k < labels.len() && labels[k].0 == b[j].0;
        assert(spec_lines_labeled(labels, labels[k].0).len() >= 2);
    }
    lemma_sorted_reports_equal(labels, a, b);
}

/// Every standard instruction kind fills its slots with any argument count it
/// accepts.
pub proof fn lemma_default_table_fills_slots(table: InstructionKindMap<InstructionProperties>)
    requires
        forall|kind: InstructionKind| #[trigger] table.spec_get(kind) == spec_default_properties(kind),
    ensures
        spec_table_fills_slots(table),
{
    assert forall|kind: InstructionKind| #[trigger] spec_fills_slots(table.spec_get(kind)) by {
        let properties = table.spec_get(kind);
        assert(properties == spec_default_properties(kind));
        assert forall|length: nat|
            properties.spec_minimum_arguments() <= length <= properties.spec_maximum_arguments() implies #[trigger] spec_slots_taken(
            properties.arguments@,
            properties.spec_maximum_arguments(),
            length,
            0,
            0,
        ) <= length by {
            reveal_with_fuel(spec_slots_taken, 4);
        }
    }
}

/// How an argument read from a line is written: the word, or the two words
/// around the comparison's symbol.
pub open spec fn spec_argument_text_of(argument: ArgumentText) -> Seq<char> {
    match argument {
        ArgumentText::Token(token) => token,
        ArgumentText::Comparison { ordering, invert, values } => values.0 + seq![
            ' ',
            spec_comparison_symbol(ordering, invert),
            ' ',
        ] + values.1,
    }
}

/// The symbol of a comparison.
fn comparison_symbol(ordering: Order, invert: bool) -> (result: char)
    ensures
        result == spec_comparison_symbol(ordering, invert),
{
    match (ordering, invert) {
        (Order::Less, false) => '<',
        (Order::Equal, false) => '=',
        (Order::Greater, false) => '>',
        (Order::Less, true) => '≥',
        (Order::Equal, true) => '≠',
        (Order::Greater, true) => '≤',
    }
}

/// Appends the characters of a string.
fn push_string(out: &mut Vec<char>, s: &String)
    ensures
        final(out)@ == old(out)@ + s@,
{
    push_str(out, s.as_str());
}

impl ArgumentIntermediate {
    /// How the argument is written.
    pub fn to_display_string(&self) -> (result: String)
        ensures
            result@ == spec_argument_text_of(self@),
    {
        let mut out: Vec<char> = Vec::new();
        match self {
            ArgumentIntermediate::Token(token) => push_chars(&mut out, token.as_slice()),
            ArgumentIntermediate::Comparison { ordering, invert, values } => {
                push_chars(&mut out, values[0].as_slice());
                out.push(' ');
                out.push(comparison_symbol(*ordering, *invert));
                out.push(' ');
                push_chars(&mut out, values[1].as_slice());
            },
        }
        proof {
            assert(out@ =~= spec_argument_text_of(self@));
        }
        string_from_chars(out.as_slice())
    }
}

impl OwnedArgumentIntermediate {
    /// Appends how the argument is written.
    pub fn push_text(&self, out: &mut Vec<char>)
        ensures
            final(out)@ == old(out)@ + spec_argument_text_of(self@),
    {
        let ghost start = out@;
        match self {
            OwnedArgumentIntermediate::Token(token) => push_string(out, token),
            OwnedArgumentIntermediate::Comparison { ordering, invert, values } => {
                push_string(out, &values[0]);
                out.push(' ');
                out.push(comparison_symbol(*ordering, *invert));
                out.push(' ');
                push_string(out, &values[1]);
            },
        }
        proof {
            assert(out@ =~= start + spec_argument_text_of(self@));
        }
    }

    /// How the argument is written.
    pub fn to_display_string(&self) -> (result: String)
        ensures
            result@ == spec_argument_text_of(self@),
    {
        let mut out: Vec<char> = Vec::new();
        self.push_text(&mut out);
        proof {
            assert(out@ =~= spec_argument_text_of(self@));
        }
        string_from_chars(out.as_slice())
    }
}

/// How a problem with an argument is described.
pub open spec fn spec_parse_error_message(error: ParseArgumentErrorView) -> Seq<char> {
    match error {
        ParseArgumentErrorView::OutOfTokens => "Ran out of tokens when parsing arguments"@,
        ParseArgumentErrorView::IncompleteComparison => "A constant or register must follow a comparison operator"@,
        ParseArgumentErrorView::ConstantTooBig { got, maximum } => spec_overflow_message(got, maximum),
        ParseArgumentErrorView::ConstantTooSmall { got, minimum } => spec_underflow_message(got, minimum),
        ParseArgumentErrorView::NoSuchLabel(label) => "No such label \""@ + label + seq!['"'],
        ParseArgumentErrorView::InvalidLabel(label) => "Invalid label \""@ + label
            + "\", must contain only _, -, letters, and numbers"@,
        ParseArgumentErrorView::IncorrectType => "(internal error) Invalid argument"@,
    }
}

/// Whether every register an error names has a letter.
pub open spec fn spec_error_named(kind: AssemblyErrorKindView) -> bool {
    kind matches AssemblyErrorKindView::RegisterNotSupported(register) ==> register < 26
}

/// How an assembly error is described, without its lines.
pub open spec fn spec_error_kind_message(kind: AssemblyErrorKindView) -> Seq<char> {
    match kind {
        AssemblyErrorKindView::RegisterNotSupported(register) => seq![
            '"',
            spec_name_of_register(register).unwrap(),
        ] + "\" register not supported on this machine"@,
        AssemblyErrorKindView::NoSuchOperation(operation) => "No such operation \""@ + operation
            + "\" on this machine"@,
        AssemblyErrorKindView::DuplicateLabel(label) => "Duplicate label \""@ + label + seq!['"'],
        AssemblyErrorKindView::UnexpectedArgument { got, expected } => "Got \""@ + spec_argument_text_of(got)
            + "\", expected "@ + spec_requirement_text(expected),
        AssemblyErrorKindView::TooManyArguments { got, maximum } => "Too many arguments (got "@
            + spec_decimal(got as int) + ", maximum "@ + spec_decimal(maximum as int) + seq![')'],
        AssemblyErrorKindView::TooFewArguments { got, minimum } => "Not enough arguments (got "@
            + spec_decimal(got as int) + ", minimum "@ + spec_decimal(minimum as int) + seq![')'],
        AssemblyErrorKindView::InvalidArgument(error) => spec_parse_error_message(error),
    }
}

/// The first `count` line numbers, separated by commas.
pub open spec fn spec_lines_text(lines: Seq<u32>, count: int) -> Seq<char>
    decreases count,
{
    if count <= 0 {
        Seq::empty()
    } else {
        spec_lines_text(lines, count - 1) + (if count > 1 {
            ", "@
        } else {
            Seq::<char>::empty()
        }) + spec_decimal(lines[count - 1] as int)
    }
}

/// How an assembly error is described: `Error:`, `Line n:` or `Lines a, b:`,
/// then what is wrong.
pub open spec fn spec_error_message(error: AssemblyErrorView) -> Seq<char> {
    let prefix = if error.lines.len() == 0 {
        "Error: "@
    } else if error.lines.len() == 1 {
        "Line "@ + spec_decimal(error.lines[0] as int) + ": "@
    } else {
        "Lines "@ + spec_lines_text(error.lines, error.lines.len() as int) + ": "@
    };
    prefix + spec_error_kind_message(error.kind)
}

impl ParseArgumentError {
    /// Appends how the problem is described.
    pub fn push_text(&self, out: &mut Vec<char>)
        ensures
            final(out)@ == old(out)@ + spec_parse_error_message(self@),
    {
        let ghost start = out@;
        match self {
            ParseArgumentError::OutOfTokens => push_str(out, "Ran out of tokens when parsing arguments"),
            ParseArgumentError::IncompleteComparison => push_str(
                out,
                "A constant or register must follow a comparison operator",
            ),
            ParseArgumentError::ConstantTooBig { got, maximum } => {
                let got_chars = chars_of(got.as_str());
                let message = format_overflow_error(got_chars.as_slice(), *maximum);
                push_string(out, &message);
            },
            ParseArgumentError::ConstantTooSmall { got, minimum } => {
                let got_chars = chars_of(got.as_str());
                let message = format_underflow_error(got_chars.as_slice(), *minimum);
                push_string(out, &message);
            },
            ParseArgumentError::NoSuchLabel(label) => {
                push_str(out, "No such label \"");
                push_string(out, label);
                out.push('"');
            },
            ParseArgumentError::InvalidLabel(label) => {
                push_str(out, "Invalid label \"");
                push_string(out, label);
                push_str(out, "\", must contain only _, -, letters, and numbers");
            },
            ParseArgumentError::IncorrectType => push_str(out, "(internal error) Invalid argument"),
        }
        proof {
            assert(out@ =~= start + spec_parse_error_message(self@));
        }
    }
}

impl ProgramAssemblyErrorKind {
    /// Appends how the error is described.
    pub fn push_text(&self, out: &mut Vec<char>)
        requires
            spec_error_named(self@),
        ensures
            final(out)@ == old(out)@ + spec_error_kind_message(self@),
    {
        let ghost start = out@;
        match self {
            ProgramAssemblyErrorKind::RegisterNotSupported(register) => {
                out.push('"');
                out.push(name_of_register(*register).unwrap());
                push_str(out, "\" register not supported on this machine");
            },
            ProgramAssemblyErrorKind::NoSuchOperation(operation) => {
                push_str(out, "No such operation \"");
                push_string(out, operation);
                push_str(out, "\" on this machine");
            },
            ProgramAssemblyErrorKind::DuplicateLabel(label) => {
                push_str(out, "Duplicate label \"");
                push_string(out, label);
                out.push('"');
            },
            ProgramAssemblyErrorKind::UnexpectedArgument { got, expected } => {
                push_str(out, "Got \"");
                got.push_text(out);
                push_str(out, "\", expected ");
                expected.push_text(out);
            },
            ProgramAssemblyErrorKind::TooManyArguments { got, maximum } => {
                push_str(out, "Too many arguments (got ");
                push_decimal(out, *got as i128);
                push_str(out, ", maximum ");
                push_decimal(out, *maximum as i128);
                out.push(')');
            },
            ProgramAssemblyErrorKind::TooFewArguments { got, minimum } => {
                push_str(out, "Not enough arguments (got ");
                push_decimal(out, *got as i128);
                push_str(out, ", minimum ");
                push_decimal(out, *minimum as i128);
                out.push(')');
            },
            ProgramAssemblyErrorKind::InvalidArgument(error) => error.push_text(out),
        }
        proof {
            assert(out@ =~= start + spec_error_kind_message(self@));
        }
    }
}

impl ProgramAssemblyError {
    /// How the error is described.
    pub fn to_display_string(&self) -> (result: String)
        requires
            spec_error_named(self.kind@),
        ensures
            result@ == spec_error_message(self@),
    {
        let mut out: Vec<char> = Vec::new();
        if self.lines.len() == 0 {
            push_str(&mut out, "Error: ");
        } else if self.lines.len() == 1 {
            push_str(&mut out, "Line ");
            push_decimal(&mut out, self.lines[0] as i128);
            push_str(&mut out, ": ");
        } else {
            push_str(&mut out, "Lines ");
            let ghost start = out@;
            let mut i: usize = 0;
            while i < self.lines.len()
                invariant
                    i <= self.lines@.len(),
                    out@ == start + spec_lines_text(self.lines@, i as int),
                decreases self.lines@.len() - i,
            {
                let ghost before = out@;
                if i != 0 {
                    push_str(&mut out, ", ");
                }
                push_decimal(&mut out, self.lines[i] as i128);
                proof {
                    assert(out@ =~= start + spec_lines_text(self.lines@, i + 1));
                }
                i += 1;
            }
            push_str(&mut out, ": ");
        }
        let ghost prefix = out@;
        self.kind.push_text(&mut out);
        proof {
            assert(out@ =~= spec_error_message(self@));
        }
        string_from_chars(out.as_slice())
    }
}

} // verus!
