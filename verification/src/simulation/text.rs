use vstd::prelude::*;

verus! {

/// The characters of a string slice, in order.
pub fn chars_of(s: &str) -> (result: Vec<char>)
    ensures
        result@ == s@,
{
    let mut result: Vec<char> = Vec::new();
    for c in iter: s.chars()
        invariant
            result@ == iter.seq().take(iter.index() as int),
            iter.seq() == s@,
    {
        result.push(c);
    }
    result
}

/// Whether two character sequences are equal.
pub fn chars_equal(a: &[char], b: &[char]) -> (result: bool)
    ensures
        result == (a@ == b@),
{
    if a.len() != b.len() {
        return false;
    }
    let mut i: usize = 0;
    while i < a.len()
        invariant
            a@.len() == b@.len(),
            0 <= i <= a@.len(),
            forall|j: int| 0 <= j < i ==> a@[j] == b@[j],
        decreases a@.len() - i,
    {
        if a[i] != b[i] {
            return false;
        }
        i += 1;
    }
    assert(a@ =~= b@);
    true
}

/// Builds a `String` from its characters.
///
/// Trusted: calls std's `FromIterator<char>` impl for `String` (through
/// `Iterator::collect`), which std documents as concatenating the characters in
/// order; the contract claims exactly that.
#[verifier::external_body]
pub(crate) fn string_from_chars(chars: &[char]) -> (result: String)
    ensures
        result@ == chars@,
{
    chars.iter().collect()
}


/// Whether `c` has the Unicode `White_Space` property, as `char::is_whitespace`
/// documents it.
pub open spec fn spec_is_whitespace(c: char) -> bool {
    let n = c as u32;
    ||| 0x09 <= n <= 0x0d
    ||| n == 0x20
    ||| n == 0x85
    ||| n == 0xa0
    ||| n == 0x1680
    ||| 0x2000 <= n <= 0x200a
    ||| n == 0x2028
    ||| n == 0x2029
    ||| n == 0x202f
    ||| n == 0x205f
    ||| n == 0x3000
}

pub fn is_whitespace(c: char) -> (result: bool)
    ensures
        result == spec_is_whitespace(c),
{
    let n = c as u32;
    (0x09 <= n && n <= 0x0d) || n == 0x20 || n == 0x85 || n == 0xa0 || n == 0x1680 || (0x2000
        <= n && n <= 0x200a) || n == 0x2028 || n == 0x2029 || n == 0x202f || n == 0x205f || n
        == 0x3000
}

/// Whether `c` is an ASCII letter or digit.
pub open spec fn spec_is_ascii_alphanumeric(c: char) -> bool {
    let n = c as u32;
    ||| 48 <= n <= 57
    ||| 65 <= n <= 90
    ||| 97 <= n <= 122
}

pub fn is_ascii_alphanumeric(c: char) -> (result: bool)
    ensures
        result == spec_is_ascii_alphanumeric(c),
{
    let n = c as u32;
    (48 <= n && n <= 57) || (65 <= n && n <= 90) || (97 <= n && n <= 122)
}

/// Whether `c` ends a line.
pub open spec fn spec_is_newline(c: char) -> bool {
    c == '\n'
}

/// Whether `c` ends a run: a line when `newline`, a word otherwise.
pub open spec fn spec_stops(c: char, newline: bool) -> bool {
    if newline {
        spec_is_newline(c)
    } else {
        spec_is_whitespace(c)
    }
}

/// The number of characters before the first one that ends a run, or the
/// whole length if none does.
pub open spec fn spec_run_length(s: Seq<char>, newline: bool) -> nat
    decreases s.len(),
{
    if s.len() == 0 || spec_stops(s[0], newline) {
        0
    } else {
        1 + spec_run_length(s.drop_first(), newline)
    }
}

/// The lines of `s`: the pieces between line feeds, without a last empty
/// piece after a final line feed.
pub open spec fn spec_lines_of(s: Seq<char>) -> Seq<Seq<char>>
    decreases s.len(),
{
    if s.len() == 0 {
        Seq::empty()
    } else {
        let n = spec_run_length(s, true);
        if n >= s.len() {
            seq![s]
        } else {
            seq![s.take(n as int)] + spec_lines_of(s.skip(n + 1 as int))
        }
    }
}

/// The whitespace-separated words of `s`, in order.
pub open spec fn spec_tokens(s: Seq<char>) -> Seq<Seq<char>>
    decreases s.len(),
{
    if s.len() == 0 {
        Seq::empty()
    } else if spec_is_whitespace(s[0]) {
        spec_tokens(s.drop_first())
    } else {
        let n = spec_run_length(s, false);
        if n >= s.len() {
            seq![s]
        } else {
            seq![s.take(n as int)] + spec_tokens(s.skip(n as int))
        }
    }
}

/// A run never reaches past the end, and everything inside it misses `stop`.
pub proof fn lemma_run_length(s: Seq<char>, stop: bool)
    ensures
        spec_run_length(s, stop) <= s.len(),
        forall|i: int| 0 <= i < spec_run_length(s, stop) ==> !spec_stops(#[trigger] s[i], stop),
        spec_run_length(s, stop) < s.len() ==> spec_stops(s[spec_run_length(s, stop) as int], stop),
    decreases s.len(),
{
    if s.len() > 0 && !spec_stops(s[0], stop) {
        lemma_run_length(s.drop_first(), stop);
        assert forall|i: int| 0 <= i < spec_run_length(s, stop) implies !spec_stops(#[trigger] s[i], stop) by {
            if i > 0 {
                assert(s[i] == s.drop_first()[i - 1]);
            }
        }
    }
}

/// The run that starts at `start` ends at the first stopping character.
proof fn lemma_run_ends_at(s: Seq<char>, stop: bool, start: int, end: int)
    requires
        0 <= start <= end <= s.len(),
        forall|i: int| start <= i < end ==> !spec_stops(#[trigger] s[i], stop),
        end == s.len() || spec_stops(s[end], stop),
    ensures
        spec_run_length(s.skip(start), stop) == end - start,
    decreases end - start,
{
    if start < end {
        assert(s.skip(start).drop_first() =~= s.skip(start + 1));
        lemma_run_ends_at(s, stop, start + 1, end);
    } else if end < s.len() {
        assert(s.skip(start)[0] == s[end]);
    }
}

/// The characters before the first one satisfying `stop`, or all of them.
fn run_end(s: &[char], start: usize, newline: bool) -> (end: usize)
    requires
        start <= s@.len(),
    ensures
        start <= end <= s@.len(),
        forall|i: int| start <= i < end ==> !spec_stops(#[trigger] s@[i], newline),
        end == s@.len() || spec_stops(s@[end as int], newline),
{
    let mut end = start;
    while end < s.len()
        invariant
            start <= end <= s@.len(),
            forall|i: int| start <= i < end ==> !spec_stops(#[trigger] s@[i], newline),
        decreases s@.len() - end,
    {
        let c = s[end];
        let stops = if newline {
            c == '\n'
        } else {
            is_whitespace(c)
        };
        if stops {
            return end;
        }
        end += 1;
    }
    end
}

/// The characters `s[start..end]`.
pub fn chars_between(s: &[char], start: usize, end: usize) -> (result: Vec<char>)
    requires
        start <= end <= s@.len(),
    ensures
        result@ == s@.subrange(start as int, end as int),
{
    let mut result: Vec<char> = Vec::new();
    let mut i = start;
    while i < end
        invariant
            start <= i <= end <= s@.len(),
            result@ == s@.subrange(start as int, i as int),
        decreases end - i,
    {
        result.push(s[i]);
        i += 1;
    }
    result
}

/// The views of a list of character vectors.
pub open spec fn spec_views(v: Seq<Vec<char>>) -> Seq<Seq<char>> {
    v.map_values(|t: Vec<char>| t@)
}

/// The lines of `s`: the pieces between line feeds.
pub fn lines_of(s: &[char]) -> (result: Vec<Vec<char>>)
    ensures
        spec_views(result@) == spec_lines_of(s@),
{
    let mut result: Vec<Vec<char>> = Vec::new();
    let mut start: usize = 0;
    proof {
        assert(s@.skip(0) =~= s@);
    }
    while start < s.len()
        invariant
            start <= s@.len(),
            spec_views(result@) + spec_lines_of(s@.skip(start as int)) == spec_lines_of(s@),
        decreases s@.len() - start,
    {
        let end = run_end(s, start, true);
        proof {
            lemma_run_ends_at(s@, true, start as int, end as int);
            assert(s@.skip(start as int).take((end - start) as int) =~= s@.subrange(start as int, end as int));
        }
        let line = chars_between(s, start, end);
        let ghost rest = s@.skip(start as int);
        if end == s.len() {
            proof {
                assert(rest =~= s@.subrange(start as int, end as int));
                assert(spec_views(result@.push(line)) =~= spec_views(result@) + seq![line@]);
                assert(s@.skip(end as int) =~= Seq::<char>::empty());
            }
            result.push(line);
            start = end;
        } else {
            proof {
                assert(rest.skip((end - start) + 1) =~= s@.skip(end + 1));
                assert(spec_views(result@.push(line)) =~= spec_views(result@) + seq![line@]);
            }
            result.push(line);
            start = end + 1;
        }
    }
    proof {
        assert(s@.skip(start as int) =~= Seq::<char>::empty());
        assert(spec_views(result@) + Seq::<Seq<char>>::empty() =~= spec_views(result@));
    }
    result
}

/// The whitespace-separated words of `s`.
pub fn tokens_of(s: &[char]) -> (result: Vec<Vec<char>>)
    ensures
        spec_views(result@) == spec_tokens(s@),
{
    let mut result: Vec<Vec<char>> = Vec::new();
    let mut start: usize = 0;
    proof {
        assert(s@.skip(0) =~= s@);
    }
    while start < s.len()
        invariant
            start <= s@.len(),
            spec_views(result@) + spec_tokens(s@.skip(start as int)) == spec_tokens(s@),
        decreases s@.len() - start,
    {
        let ghost rest = s@.skip(start as int);
        if is_whitespace(s[start]) {
            proof {
                assert(rest.drop_first() =~= s@.skip(start + 1));
            }
            start += 1;
        } else {
            let end = run_end(s, start, false);
            proof {
                lemma_run_ends_at(s@, false, start as int, end as int);
                assert(rest.take((end - start) as int) =~= s@.subrange(start as int, end as int));
            }
            let token = chars_between(s, start, end);
            proof {
                assert(spec_views(result@.push(token)) =~= spec_views(result@) + seq![token@]);
                if end == s.len() {
                    assert(rest =~= s@.subrange(start as int, end as int));
                    assert(s@.skip(end as int) =~= Seq::<char>::empty());
                } else {
                    assert(rest.skip((end - start) as int) =~= s@.skip(end as int));
                }
            }
            result.push(token);
            start = end;
        }
    }
    proof {
        assert(s@.skip(start as int) =~= Seq::<char>::empty());
        assert(spec_views(result@) + Seq::<Seq<char>>::empty() =~= spec_views(result@));
    }
    result
}

/// The position of the first `target` in `s`, or the length of `s`.
pub open spec fn spec_position_of(s: Seq<char>, target: char) -> nat
    decreases s.len(),
{
    if s.len() == 0 || s[0] == target {
        0
    } else {
        1 + spec_position_of(s.drop_first(), target)
    }
}

/// The position of the first `target` in `s`, or the length of `s`.
pub fn position_of(s: &[char], target: char) -> (result: usize)
    ensures
        result == spec_position_of(s@, target),
        result <= s@.len(),
{
    let mut i: usize = 0;
    proof {
        assert(s@.skip(0) =~= s@);
    }
    while i < s.len()
        invariant
            i <= s@.len(),
            spec_position_of(s@, target) == i + spec_position_of(s@.skip(i as int), target),
        decreases s@.len() - i,
    {
        proof {
            assert(s@.skip(i as int)[0] == s@[i as int]);
            assert(s@.skip(i as int).drop_first() =~= s@.skip(i + 1));
        }
        if s[i] == target {
            return i;
        }
        i += 1;
    }
    proof {
        assert(s@.skip(i as int).len() == 0);
    }
    i
}

/// Whether `a` comes before `b` in lexicographic order of code points.
pub open spec fn spec_chars_less(a: Seq<char>, b: Seq<char>) -> bool
    decreases a.len(),
{
    if a.len() == 0 {
        b.len() > 0
    } else if b.len() == 0 {
        false
    } else if a[0] != b[0] {
        (a[0] as int) < (b[0] as int)
    } else {
        spec_chars_less(a.drop_first(), b.drop_first())
    }
}

/// Two non-empty sequences with the same first element and the same rest are
/// equal.
proof fn lemma_equal_parts(a: Seq<char>, b: Seq<char>)
    requires
        a.len() > 0,
        b.len() > 0,
        a[0] == b[0],
        a.drop_first() == b.drop_first(),
    ensures
        a == b,
{
    assert(a.drop_first().len() == a.len() - 1);
    assert(b.drop_first().len() == b.len() - 1);
    assert(a.drop_first().len() == b.drop_first().len());
    assert(a.len() == b.len());
    assert forall|i: int| 0 <= i < a.len() implies a[i] == b[i] by {
        if i > 0 {
            assert(a[i] == a.drop_first()[i - 1]);
            assert(b[i] == b.drop_first()[i - 1]);
        }
    }
    assert(a =~= b);
}

/// Lexicographic order is irreflexive and asymmetric, and it orders any two
/// different sequences.
pub proof fn lemma_chars_less_total(a: Seq<char>, b: Seq<char>)
    ensures
        !spec_chars_less(a, a),
        spec_chars_less(a, b) ==> !spec_chars_less(b, a),
        a != b ==> spec_chars_less(a, b) || spec_chars_less(b, a),
    decreases a.len(),
{
    if a.len() > 0 {
        lemma_chars_less_total(a.drop_first(), a.drop_first());
        if b.len() > 0 {
            lemma_chars_less_total(a.drop_first(), b.drop_first());
            if a[0] == b[0] && a.drop_first() == b.drop_first() {
                lemma_equal_parts(a, b);
            }
        }
    } else if b.len() == 0 {
        assert(a =~= b);
    }
}

/// Lexicographic order is transitive.
pub proof fn lemma_chars_less_transitive(a: Seq<char>, b: Seq<char>, c: Seq<char>)
    requires
        spec_chars_less(a, b),
        spec_chars_less(b, c),
    ensures
        spec_chars_less(a, c),
    decreases a.len(),
{
    if a.len() > 0 && b.len() > 0 && c.len() > 0 && a[0] == b[0] && b[0] == c[0] {
        lemma_chars_less_transitive(a.drop_first(), b.drop_first(), c.drop_first());
    }
}

/// Whether `a` comes before `b` in lexicographic order of code points.
pub fn chars_less(a: &[char], b: &[char]) -> (result: bool)
    ensures
        result == spec_chars_less(a@, b@),
{
    let mut i: usize = 0;
    proof {
        assert(a@.skip(0) =~= a@);
        assert(b@.skip(0) =~= b@);
    }
    while i < a.len() && i < b.len()
        invariant
            i <= a@.len(),
            i <= b@.len(),
            spec_chars_less(a@, b@) == spec_chars_less(a@.skip(i as int), b@.skip(i as int)),
        decreases a@.len() - i,
    {
        proof {
            assert(a@.skip(i as int)[0] == a@[i as int]);
            assert(b@.skip(i as int)[0] == b@[i as int]);
            assert(a@.skip(i as int).drop_first() =~= a@.skip(i + 1));
            assert(b@.skip(i as int).drop_first() =~= b@.skip(i + 1));
        }
        if a[i] != b[i] {
            return a[i] < b[i];
        }
        i += 1;
    }
    i == a.len() && i < b.len()
}

/// Whether `c` may appear in a label: `_`, `-`, or an ASCII letter or digit.
pub open spec fn spec_is_label_char(c: char) -> bool {
    c == '_' || c == '-' || spec_is_ascii_alphanumeric(c)
}

/// The sign and magnitude digits of an integer literal, with what `str::parse`
/// reports for it: its value, or why it has none.
pub enum ParsedInteger {
    Value(i32),
    PositiveOverflow,
    NegativeOverflow,
    Invalid,
}

/// Whether `c` is an ASCII decimal digit.
pub open spec fn spec_is_digit(c: char) -> bool {
    48 <= (c as u32) <= 57
}

/// Reads `digits` left to right onto `acc`, as `i32`'s `from_str` does: each
/// character must be a digit, and the first step that leaves the range of
/// `i32` overflows (toward the sign of the literal).
pub open spec fn spec_accumulate_digits(digits: Seq<char>, negative: bool, acc: int) -> ParsedInteger
    decreases digits.len(),
{
    if digits.len() == 0 {
        ParsedInteger::Value(acc as i32)
    } else if !spec_is_digit(digits[0]) {
        ParsedInteger::Invalid
    } else {
        let digit = (digits[0] as u32) - 48;
        let next = if negative {
            acc * 10 - digit
        } else {
            acc * 10 + digit
        };
        if next > i32::MAX {
            ParsedInteger::PositiveOverflow
        } else if next < i32::MIN {
            ParsedInteger::NegativeOverflow
        } else {
            spec_accumulate_digits(digits.drop_first(), negative, next)
        }
    }
}

/// What `str::parse::<i32>` gives for `s`: an optional `+` or `-`, then one
/// or more decimal digits.
pub open spec fn spec_parse_integer(s: Seq<char>) -> ParsedInteger {
    if s.len() == 0 {
        ParsedInteger::Invalid
    } else if s.len() == 1 && (s[0] == '+' || s[0] == '-') {
        ParsedInteger::Invalid
    } else if s[0] == '+' {
        spec_accumulate_digits(s.drop_first(), false, 0)
    } else if s[0] == '-' {
        spec_accumulate_digits(s.drop_first(), true, 0)
    } else {
        spec_accumulate_digits(s, false, 0)
    }
}

/// Parses a decimal `i32` literal the way `str::parse::<i32>` does.
pub fn parse_integer(s: &[char]) -> (result: ParsedInteger)
    ensures
        result == spec_parse_integer(s@),
{
    if s.len() == 0 {
        return ParsedInteger::Invalid;
    }
    if s.len() == 1 && (s[0] == '+' || s[0] == '-') {
        return ParsedInteger::Invalid;
    }
    let negative = s[0] == '-';
    let start: usize = if s[0] == '+' || s[0] == '-' {
        1
    } else {
        0
    };
    let ghost digits = s@.skip(start as int);
    proof {
        if start == 1 {
            assert(digits =~= s@.drop_first());
        } else {
            assert(digits =~= s@);
        }
        assert(spec_parse_integer(s@) == spec_accumulate_digits(digits, negative, 0));
    }
    let mut acc: i32 = 0;
    let mut i: usize = start;
    while i < s.len()
        invariant
            start <= i <= s@.len(),
            digits == s@.skip(start as int),
            spec_parse_integer(s@) == spec_accumulate_digits(digits, negative, 0),
            spec_accumulate_digits(digits, negative, 0) == spec_accumulate_digits(
                s@.skip(i as int),
                negative,
                acc as int,
            ),
        decreases s@.len() - i,
    {
        proof {
            assert(s@.skip(i as int)[0] == s@[i as int]);
            assert(s@.skip(i as int).drop_first() =~= s@.skip(i + 1));
        }
        let c = s[i];
        let code = c as u32;
        if code < 48 || code > 57 {
            return ParsedInteger::Invalid;
        }
        let digit = (code - 48) as i32;
        let next: i64 = if negative {
            acc as i64 * 10 - digit as i64
        } else {
            acc as i64 * 10 + digit as i64
        };
        if next > i32::MAX as i64 {
            return ParsedInteger::PositiveOverflow;
        }
        if next < i32::MIN as i64 {
            return ParsedInteger::NegativeOverflow;
        }
        acc = next as i32;
        i += 1;
    }
    proof {
        assert(s@.skip(i as int).len() == 0);
    }
    ParsedInteger::Value(acc)
}

/// Whether `c` may appear in a label: `_`, `-`, or an ASCII letter or digit.
pub fn is_label_char(c: char) -> (result: bool)
    ensures
        result == spec_is_label_char(c),
{
    c == '_' || c == '-' || is_ascii_alphanumeric(c)
}

/// The decimal digit character for `d`.
pub open spec fn spec_digit_char(d: int) -> char {
    if d == 0 {
        '0'
    } else if d == 1 {
        '1'
    } else if d == 2 {
        '2'
    } else if d == 3 {
        '3'
    } else if d == 4 {
        '4'
    } else if d == 5 {
        '5'
    } else if d == 6 {
        '6'
    } else if d == 7 {
        '7'
    } else if d == 8 {
        '8'
    } else {
        '9'
    }
}

fn digit_char(d: u128) -> (result: char)
    requires
        d < 10,
    ensures
        result == spec_digit_char(d as int),
{
    if d == 0 {
        '0'
    } else if d == 1 {
        '1'
    } else if d == 2 {
        '2'
    } else if d == 3 {
        '3'
    } else if d == 4 {
        '4'
    } else if d == 5 {
        '5'
    } else if d == 6 {
        '6'
    } else if d == 7 {
        '7'
    } else if d == 8 {
        '8'
    } else {
        '9'
    }
}

/// The decimal digits of `n`, most significant first, without leading zeros
/// (a single `0` for zero).
pub open spec fn spec_digits_of(n: nat) -> Seq<char>
    decreases n,
{
    if n < 10 {
        seq![spec_digit_char(n as int)]
    } else {
        spec_digits_of(n / 10).push(spec_digit_char((n % 10) as int))
    }
}

/// How `n` is written in decimal: a `-` before the digits of a negative
/// number.
pub open spec fn spec_decimal(n: int) -> Seq<char> {
    if n < 0 {
        seq!['-'] + spec_digits_of((-n) as nat)
    } else {
        spec_digits_of(n as nat)
    }
}

/// Writing a number takes at least one character.
pub proof fn lemma_digits_nonempty(n: nat)
    ensures
        spec_digits_of(n).len() >= 1,
    decreases n,
{
    if n >= 10 {
        lemma_digits_nonempty(n / 10);
    }
}

/// Appends the decimal digits of `n`.
fn push_digits(out: &mut Vec<char>, n: u128)
    ensures
        final(out)@ == old(out)@ + spec_digits_of(n as nat),
    decreases n,
{
    if n >= 10 {
        push_digits(out, n / 10);
    }
    let c = digit_char(n % 10);
    out.push(c);
    proof {
        if n >= 10 {
            assert(old(out)@ + spec_digits_of(n as nat) =~= old(out)@ + spec_digits_of((n / 10) as nat) + seq![c]);
        } else {
            assert(old(out)@ + spec_digits_of(n as nat) =~= old(out)@.push(c));
        }
    }
}

/// Appends how `n` is written in decimal.
pub fn push_decimal(out: &mut Vec<char>, n: i128)
    requires
        n > i128::MIN,
    ensures
        final(out)@ == old(out)@ + spec_decimal(n as int),
{
    if n < 0 {
        out.push('-');
        push_digits(out, (-n) as u128);
        proof {
            assert(old(out)@ + spec_decimal(n as int) =~= old(out)@.push('-') + spec_digits_of((-n) as nat));
        }
    } else {
        push_digits(out, n as u128);
    }
}

/// Appends the characters of `s`.
pub fn push_str(out: &mut Vec<char>, s: &str)
    ensures
        final(out)@ == old(out)@ + s@,
{
    let chars = chars_of(s);
    let mut i: usize = 0;
    while i < chars.len()
        invariant
            i <= chars@.len(),
            chars@ == s@,
            out@ == old(out)@ + chars@.take(i as int),
        decreases chars@.len() - i,
    {
        out.push(chars[i]);
        proof {
            assert(chars@.take(i + 1) =~= chars@.take(i as int).push(chars@[i as int]));
        }
        i += 1;
    }
    proof {
        assert(chars@.take(i as int) =~= chars@);
    }
}

/// Appends the characters of `s`.
pub fn push_chars(out: &mut Vec<char>, s: &[char])
    ensures
        final(out)@ == old(out)@ + s@,
{
    let mut i: usize = 0;
    while i < s.len()
        invariant
            i <= s@.len(),
            out@ == old(out)@ + s@.take(i as int),
        decreases s@.len() - i,
    {
        out.push(s[i]);
        proof {
            assert(s@.take(i + 1) =~= s@.take(i as int).push(s@[i as int]));
        }
        i += 1;
    }
    proof {
        assert(s@.take(i as int) =~= s@);
    }
}

} // verus!
