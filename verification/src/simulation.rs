pub mod argument;
pub mod computer;
pub mod instruction;
pub mod integer;
pub mod program;
pub mod text;

use vstd::prelude::*;

use text::{chars_equal, chars_of, spec_is_digit, spec_tokens, spec_views, tokens_of};

verus! {

/// The value of a string of decimal digits.
pub open spec fn spec_digits_value(digits: Seq<char>) -> int
    decreases digits.len(),
{
    if digits.len() == 0 {
        0
    } else {
        spec_digits_value(digits.drop_last()) * 10 + ((digits.last() as u32) - 48)
    }
}

/// What `str::parse::<u64>` gives for `s`: an optional `+`, then one or more
/// decimal digits whose value fits.
pub open spec fn spec_parse_unsigned(s: Seq<char>) -> Option<u64> {
    let digits = spec_unsigned_digits(s);
    if digits.len() > 0 && spec_all_digits(digits) && spec_digits_value(digits) <= u64::MAX {
        Some(spec_digits_value(digits) as u64)
    } else {
        None
    }
}

/// The digits of an unsigned literal: all of it after an optional `+`.
pub open spec fn spec_unsigned_digits(s: Seq<char>) -> Seq<char> {
    if s.len() > 0 && s[0] == '+' {
        s.drop_first()
    } else {
        s
    }
}

/// Whether every character is a decimal digit.
pub open spec fn spec_all_digits(digits: Seq<char>) -> bool {
    forall|i: int| 0 <= i < digits.len() ==> spec_is_digit(#[trigger] digits[i])
}

/// A longer string of digits is worth at least as much as its beginning.
proof fn lemma_digits_value_grows(digits: Seq<char>, n: int)
    requires
        0 <= n <= digits.len(),
        forall|i: int| 0 <= i < digits.len() ==> spec_is_digit(#[trigger] digits[i]),
    ensures
        spec_digits_value(digits.take(n)) <= spec_digits_value(digits),
        spec_digits_value(digits) >= 0,
    decreases digits.len(),
{
    if digits.len() > 0 {
        let rest = digits.drop_last();
        assert forall|i: int| 0 <= i < rest.len() implies spec_is_digit(#[trigger] rest[i]) by {
            assert(rest[i] == digits[i]);
        }
        assert(spec_is_digit(digits[digits.len() - 1]));
        let last = (digits.last() as u32) - 48;
        assert(0 <= last <= 9);
        if n < digits.len() {
            assert(digits.take(n) =~= rest.take(n));
            lemma_digits_value_grows(rest, n);
        } else {
            assert(digits.take(n) =~= digits);
            lemma_digits_value_grows(rest, 0);
        }
        let before = spec_digits_value(rest);
        assert(spec_digits_value(digits) == before * 10 + last);
        assert(before <= before * 10) by (nonlinear_arith)
            requires
                before >= 0,
        ;
    }
}

/// Parses a decimal `u64` the way `str::parse::<u64>` does.
pub fn parse_unsigned(s: &[char]) -> (result: Option<u64>)
    ensures
        result == spec_parse_unsigned(s@),
{
    let start: usize = if s.len() > 0 && s[0] == '+' {
        1
    } else {
        0
    };
    let ghost digits = s@.skip(start as int);
    proof {
        if start == 1 {
            assert(digits =~= s@.drop_first());
        } else {
            assert(digits =~= s@);
        }
    }
    if start >= s.len() {
        return None;
    }
    let mut acc: u64 = 0;
    let mut i: usize = start;
    proof {
        assert(digits.take(0) =~= Seq::<char>::empty());
    }
    while i < s.len()
        invariant
            start <= i <= s@.len(),
            digits == s@.skip(start as int),
            digits == spec_unsigned_digits(s@),
            forall|k: int| 0 <= k < i - start ==> spec_is_digit(#[trigger] digits[k]),
            acc == spec_digits_value(digits.take(i - start)),
        decreases s@.len() - i,
    {
        let c = s[i];
        let code = c as u32;
        proof {
            assert(digits[i - start] == c);
            assert(digits.take(i - start + 1).drop_last() =~= digits.take(i - start));
        }
        if code < 48 || code > 57 {
            proof {
                assert(!spec_is_digit(digits[i - start]));
                assert(!spec_all_digits(digits));
            }
            return None;
        }
        let digit = (code - 48) as u64;
        proof {
            assert(digits.take(i - start + 1).last() == c);
            assert(spec_digits_value(digits.take(i - start + 1)) == acc * 10 + digit);
        }
        if acc > (u64::MAX - digit) / 10 {
            proof {
                assert(spec_digits_value(digits.take(i - start + 1)) > u64::MAX) by (nonlinear_arith)
                    requires
                        spec_digits_value(digits.take(i - start + 1)) == acc * 10 + digit,
                        acc > (u64::MAX - digit) / 10,
                        digit <= 9,
                ;
                if spec_all_digits(digits) {
                    lemma_digits_value_grows(digits, i - start + 1);
                }
            }
            return None;
        }
        acc = acc * 10 + digit;
        i += 1;
    }
    proof {
        assert(digits.take(i - start) =~= digits);
    }
    Some(acc)
}

/// How an interactive run proceeds: the ticks left to run without stopping
/// for a command, the pause between them, and whether each step is shown.
#[derive(Clone, Copy, Debug)]
pub struct RunControl {
    pub skip_ticks: u64,
    pub repeat_ns: Option<u64>,
    pub print_execution: bool,
}

/// The nanoseconds in one of the time unit a delay names: seconds when the
/// unit is missing or not known.
pub open spec fn spec_unit_scale(unit: Option<Seq<char>>) -> u64 {
    match unit {
        Some(u) => if u == "ns"@ || u == "nanosecond"@ || u == "nanoseconds"@ {
            1
        } else if u == "μs"@ || u == "us"@ || u == "microsecond"@ || u == "microseconds"@ {
            1000
        } else if u == "ms"@ || u == "millisecond"@ || u == "milliseconds"@ {
            1_000_000
        } else {
            1_000_000_000
        },
        None => 1_000_000_000,
    }
}

/// The command's words: how many ticks to run without stopping (`e` or `end`
/// for all of them, a number for that many, anything else for as many as
/// before), then, after `delay`, the pause between them as a number and a
/// unit. `None` when that pause does not fit in a `u64` of nanoseconds.
pub open spec fn spec_after_command(control: RunControl, words: Seq<Seq<char>>) -> Option<RunControl> {
    if words.len() == 0 {
        Some(control)
    } else {
        let skip_ticks = if words[0] == "e"@ || words[0] == "end"@ {
            u64::MAX
        } else {
            match spec_parse_unsigned(words[0]) {
                Some(ticks) => ticks,
                None => control.skip_ticks,
            }
        };
        let delay = if words.len() >= 2 && words[1] == "delay"@ {
            if words.len() >= 3 && spec_parse_unsigned(words[2]) is Some {
                let amount = spec_parse_unsigned(words[2]).unwrap();
                let scale = spec_unit_scale(
                    if words.len() >= 4 {
                        Some(words[3])
                    } else {
                        None
                    },
                );
                if amount * scale > u64::MAX {
                    None
                } else {
                    Some(Some((amount * scale) as u64))
                }
            } else {
                Some(None)
            }
        } else {
            Some(control.repeat_ns)
        };
        match delay {
            None => None,
            Some(repeat_ns) => Some(
                RunControl {
                    skip_ticks,
                    repeat_ns,
                    print_execution: if skip_ticks > 0 && repeat_ns is None {
                        false
                    } else {
                        control.print_execution
                    },
                },
            ),
        }
    }
}

/// Whether `word` is `text`.
fn word_is(word: &Vec<char>, text: &str) -> (result: bool)
    ensures
        result == (word@ == text@),
{
    let chars = chars_of(text);
    chars_equal(word.as_slice(), chars.as_slice())
}

impl RunControl {
    /// Runs step by step, showing each step.
    pub fn new() -> (result: Self)
        ensures
            result == (RunControl { skip_ticks: 0, repeat_ns: None, print_execution: true }),
    {
        RunControl { skip_ticks: 0, repeat_ns: None, print_execution: true }
    }

    /// A tick completed: one fewer left to skip; once none are left, steps
    /// are shown again.
    pub fn tick_completed(&mut self)
        ensures
            old(self).skip_ticks > 0 ==> *final(self) == (RunControl {
                skip_ticks: (old(self).skip_ticks - 1) as u64,
                print_execution: old(self).skip_ticks == 1 || old(self).print_execution,
                ..*old(self)
            }),
            old(self).skip_ticks == 0 ==> *final(self) == *old(self),
    {
        if self.skip_ticks > 0 {
            self.skip_ticks -= 1;

            if self.skip_ticks == 0 {
                self.print_execution = true;
            }
        }
    }

    /// Reads a command line. `None` when the delay it asks for does not fit in
    /// a `u64` of nanoseconds.
    pub fn after_command(&self, line: &str) -> (result: Option<RunControl>)
        ensures
            result == spec_after_command(*self, spec_tokens(line@)),
    {
        let chars = chars_of(line);
        let words = tokens_of(chars.as_slice());
        let ghost views = spec_views(words@);
        if words.len() == 0 {
            return Some(*self);
        }
        proof {
            assert(views[0] == words@[0]@);
        }
        let skip_ticks = if word_is(&words[0], "e") || word_is(&words[0], "end") {
            u64::MAX
        } else {
            match parse_unsigned(words[0].as_slice()) {
                Some(ticks) => ticks,
                None => self.skip_ticks,
            }
        };

        let mut repeat_ns = self.repeat_ns;
        if words.len() >= 2 && word_is(&words[1], "delay") {
            proof {
                assert(views[1] == words@[1]@);
            }
            let amount = if words.len() >= 3 {
                proof {
                    assert(views[2] == words@[2]@);
                }
                parse_unsigned(words[2].as_slice())
            } else {
                None
            };
            match amount {
                Some(amount) => {
                    let scale: u64 = if words.len() >= 4 {
                        proof {
                            assert(views[3] == words@[3]@);
                        }
                        let unit = &words[3];
                        if word_is(unit, "ns") || word_is(unit, "nanosecond") || word_is(
                            unit,
                            "nanoseconds",
                        ) {
                            1
                        } else if word_is(unit, "μs") || word_is(unit, "us") || word_is(
                            unit,
                            "microsecond",
                        ) || word_is(unit, "microseconds") {
                            1000
                        } else if word_is(unit, "ms") || word_is(unit, "millisecond") || word_is(
                            unit,
                            "milliseconds",
                        ) {
                            1_000_000
                        } else {
                            1_000_000_000
                        }
                    } else {
                        1_000_000_000
                    };
                    match amount.checked_mul(scale) {
                        Some(delay) => repeat_ns = Some(delay),
                        None => return None,
                    }
                },
                None => repeat_ns = None,
            }
        }

        let print_execution = if skip_ticks > 0 && repeat_ns.is_none() {
            false
        } else {
            self.print_execution
        };

        Some(RunControl { skip_ticks, repeat_ns, print_execution })
    }
}

} // verus!
