//! Fatal conditions. The process that embeds the runtime prints the message and
//! ends with the exit code.

use vstd::prelude::*;
use vstd::string::StringExecFns;

verus! {

/// Exit code for a heap that cannot hold what is live and what is asked for.
pub const OUT_OF_MEMORY_CODE: i32 = 137;

/// Exit code for a negative repeat count.
pub const NEGATIVE_COUNT_CODE: i32 = 120;

/// Exit code for a cast to a class that is no ancestor.
pub const BAD_CAST_CODE: i32 = 101;

/// Why the process must end.
pub struct Abort {
    /// What to print.
    pub message: String,
    /// The exit code.
    pub code: i32,
}

/// The digit for a number below ten.
pub open spec fn digit_char(digit: nat) -> char {
    if digit == 0 {
        '0'
    } else if digit == 1 {
        '1'
    } else if digit == 2 {
        '2'
    } else if digit == 3 {
        '3'
    } else if digit == 4 {
        '4'
    } else if digit == 5 {
        '5'
    } else if digit == 6 {
        '6'
    } else if digit == 7 {
        '7'
    } else if digit == 8 {
        '8'
    } else {
        '9'
    }
}

/// A number in decimal, without leading zeros.
pub open spec fn decimal_digits(value: nat) -> Seq<char>
    decreases value,
{
    if value < 10 {
        seq![digit_char(value)]
    } else {
        decimal_digits(value / 10).push(digit_char(value % 10))
    }
}

/// An integer in decimal, with a minus sign where it is negative.
pub open spec fn decimal(value: int) -> Seq<char> {
    if value < 0 {
        seq!['-'] + decimal_digits((-value) as nat)
    } else {
        decimal_digits(value as nat)
    }
}

impl Abort {
    /// The heap is full.
    pub open spec fn is_out_of_memory(self) -> bool {
        &&& self.code == OUT_OF_MEMORY_CODE
        &&& self.message@ == "lo_alloc: out of memory"@
    }

    /// A string was to be repeated `count` times, which is negative.
    pub open spec fn is_negative_count(self, count: i32) -> bool {
        &&& self.code == NEGATIVE_COUNT_CODE
        &&& self.message@ == "lo_string_repeat: negative count "@ + decimal(count as int)
    }

    /// An object of the class called `from` was to be cast to the class called
    /// `to`.
    pub open spec fn is_bad_cast(self, from: Seq<char>, to: Seq<char>) -> bool {
        &&& self.code == BAD_CAST_CODE
        &&& self.message@ == "lo_cast_check: cannot cast "@ + from + " to "@ + to
    }

    /// The abort for a full heap.
    pub fn out_of_memory() -> (abort: Abort)
        ensures
            abort.is_out_of_memory(),
    {
        Abort { message: "lo_alloc: out of memory".to_owned(), code: OUT_OF_MEMORY_CODE }
    }

    /// The abort for a negative repeat count.
    pub fn negative_count(count: i32) -> (abort: Abort)
        ensures
            abort.is_negative_count(count),
    {
        let mut message: String = "lo_string_repeat: negative count ".to_owned();
        append_decimal(&mut message, count);
        Abort { message, code: NEGATIVE_COUNT_CODE }
    }

    /// The abort for a cast from the class called `from` to the one called
    /// `to`.
    pub fn bad_cast(from: &str, to: &str) -> (abort: Abort)
        ensures
            abort.is_bad_cast(from@, to@),
    {
        let mut message: String = "lo_cast_check: cannot cast ".to_owned();
        message.append(from);
        message.append(" to ");
        message.append(to);
        Abort { message, code: BAD_CAST_CODE }
    }
}

/// The digit for a number below ten, as text.
fn digit_text(digit: u64) -> (text: &'static str)
    requires
        digit < 10,
    ensures
        text@ == seq![digit_char(digit as nat)],
{
    proof {
        reveal_strlit("0");
        reveal_strlit("1");
        reveal_strlit("2");
        reveal_strlit("3");
        reveal_strlit("4");
        reveal_strlit("5");
        reveal_strlit("6");
        reveal_strlit("7");
        reveal_strlit("8");
        reveal_strlit("9");
    }
    let text: &'static str = match digit {
        0 => "0",
        1 => "1",
        2 => "2",
        3 => "3",
        4 => "4",
        5 => "5",
        6 => "6",
        7 => "7",
        8 => "8",
        _ => "9",
    };
    assert(text@ =~= seq![digit_char(digit as nat)]);
    text
}

/// Appends `value` in decimal.
fn append_digits(text: &mut String, value: u64)
    ensures
        final(text)@ == old(text)@ + decimal_digits(value as nat),
    decreases value,
{
    if value >= 10 {
        append_digits(text, value / 10);
    }
    text.append(digit_text(value % 10));
    assert(text@ =~= old(text)@ + decimal_digits(value as nat));
}

/// Appends `value` in decimal, with a minus sign where it is negative.
fn append_decimal(text: &mut String, value: i32)
    ensures
        final(text)@ == old(text)@ + decimal(value as int),
{
    if value < 0 {
        proof {
            reveal_strlit("-");
        }
        text.append("-");
        append_digits(text, (-(value as i64)) as u64);
        assert(text@ =~= old(text)@ + decimal(value as int));
    } else {
        append_digits(text, value as u64);
    }
}

/// Law: what the three aborts print, and the exit codes they give.
pub proof fn law_abort_texts(abort: Abort, count: i32, from: Seq<char>, to: Seq<char>)
    ensures
        abort.is_out_of_memory() <==> abort.code == 137 && abort.message@
            == "lo_alloc: out of memory"@,
        abort.is_negative_count(count) <==> abort.code == 120 && abort.message@
            == "lo_string_repeat: negative count "@ + decimal(count as int),
        abort.is_bad_cast(from, to) <==> abort.code == 101 && abort.message@
            == "lo_cast_check: cannot cast "@ + from + " to "@ + to,
{
}

/// Law: a number in decimal is one or more of the ten digits, the last of which
/// stands for the remainder by ten and the others for the quotient; a negative
/// number has a minus sign in front, and otherwise the digits of its opposite.
pub proof fn law_decimal_text(value: int)
    ensures
        0 <= value < 10 ==> decimal(value).len() == 1,
        value >= 10 ==> decimal(value).drop_last() == decimal(value / 10),
        value >= 0 ==> decimal(value).len() > 0 && decimal(value).last() as int == 48 + value % 10,
        value < 0 ==> decimal(value) == seq!['-'] + decimal(-value),
{
    if value >= 10 {
        let front = decimal_digits((value / 10) as nat);
        let last = digit_char((value % 10) as nat);
        assert(front.push(last).drop_last() =~= front);
    }
}

} // verus!
