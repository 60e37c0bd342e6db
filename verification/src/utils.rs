//! Small helpers shared by the task list: digit counting for column widths,
//! priority resolution and the exit statuses of the command-line front end.

use crate::style::{emphasize, is_emphasis_of, Tint};
use crate::task::{resolve_priority, PRIORITY_DEFAULT, PRIORITY_MAX, PRIORITY_MIN};
use vstd::prelude::*;
use vstd::string::StringExecFns;

verus! {

/// Exit status of a command that succeeded.
pub const ERR_SUCCESS: i32 = 0;

/// Exit status when the task list could not be written.
pub const ERR_SAVE: i32 = 1;

/// Exit status when a task id is malformed or unknown.
pub const ERR_INVALID_TASK_ID: i32 = 2;

/// Exit status when a task could not be completed.
pub const ERR_COMPLETE: i32 = 3;

/// Exit status when a task could not be started.
pub const ERR_START: i32 = 4;

/// Number of decimal digits needed to write `n`.
pub open spec fn decimal_digits(n: nat) -> nat
    decreases n,
{
    if n < 10 {
        1
    } else {
        1 + decimal_digits(n / 10)
    }
}

/// A number never has more digits than its own value, once it is positive.
pub proof fn lemma_decimal_digits_bound(n: nat)
    requires
        n >= 1,
    ensures
        1 <= decimal_digits(n) <= n,
    decreases n,
{
    if n >= 10 {
        lemma_decimal_digits_bound(n / 10);
    }
}

/// The character that stands for the digit `d`.
pub open spec fn digit_char(d: nat) -> char {
    if d == 0 {
        '0'
    } else if d == 1 {
        '1'
    } else if d == 2 {
        '2'
    } else if d == 3 {
        '3'
    } else if d == 4 {
        '4'
    } else if d == 5 {
        '5'
    } else if d == 6 {
        '6'
    } else if d == 7 {
        '7'
    } else if d == 8 {
        '8'
    } else {
        '9'
    }
}

/// `n` written in decimal digits, without leading zeros.
pub open spec fn decimal(n: nat) -> Seq<char>
    decreases n,
{
    if n < 10 {
        seq![digit_char(n)]
    } else {
        decimal(n / 10).push(digit_char(n % 10))
    }
}

/// A number has far fewer digits than its own value.
pub proof fn lemma_decimal_digits_small(n: nat)
    ensures
        decimal_digits(n) <= n / 10 + 1,
    decreases n,
{
    if n >= 10 {
        lemma_decimal_digits_small(n / 10);
    }
}

/// A greater number has at least as many digits.
pub proof fn lemma_decimal_digits_grow(small: nat, great: nat)
    requires
        small <= great,
    ensures
        decimal_digits(small) <= decimal_digits(great),
    decreases great,
{
    if small >= 10 {
        lemma_decimal_digits_grow(small / 10, great / 10);
    }
}

/// A number is written with as many characters as it has decimal digits.
pub proof fn law_decimal_len(n: nat)
    ensures
        decimal(n).len() == decimal_digits(n),
    decreases n,
{
    if n >= 10 {
        law_decimal_len(n / 10);
    }
}

/// `count` spaces; none where `count` is negative.
pub open spec fn spaces(count: int) -> Seq<char> {
    Seq::new(
        if count > 0 {
            count as nat
        } else {
            0
        },
        |i: int| ' ',
    )
}

/// `text` set to the right of a field of `width` characters: preceded by
/// as many spaces as it takes to fill the field; text that is longer stays
/// as it is.
pub open spec fn padded(text: Seq<char>, width: int) -> Seq<char> {
    spaces(width - text.len()) + text
}

/// The one-character text of a digit.
fn digit_str(d: usize) -> (text: &'static str)
    requires
        d < 10,
    ensures
        text@ == seq![digit_char(d as nat)],
{
    proof {
        reveal_strlit("0");
        reveal_strlit("1");
        reveal_strlit("2");
        reveal_strlit("3");
        reveal_strlit("4");
        reveal_strlit("5");
        reveal_strlit("6");
        reveal_strlit("7");
        reveal_strlit("8");
        reveal_strlit("9");
    }
    let text = if d == 0 {
        "0"
    } else if d == 1 {
        "1"
    } else if d == 2 {
        "2"
    } else if d == 3 {
        "3"
    } else if d == 4 {
        "4"
    } else if d == 5 {
        "5"
    } else if d == 6 {
        "6"
    } else if d == 7 {
        "7"
    } else if d == 8 {
        "8"
    } else {
        "9"
    };
    assert(text@ =~= seq![digit_char(d as nat)]);
    text
}

/// Writes `n` in decimal digits.
pub fn decimal_string(n: usize) -> (text: String)
    ensures
        text@ == decimal(n as nat),
    decreases n,
{
    if n < 10 {
        digit_str(n).to_owned()
    } else {
        let mut text = decimal_string(n / 10);
        text.append(digit_str(n % 10));
        text
    }
}

/// Appends `count` spaces to `text`.
pub fn push_spaces(text: &mut String, count: usize)
    ensures
        final(text)@ == old(text)@ + spaces(count as int),
{
    let mut i: usize = 0;
    assert(text@ + spaces(0) == text@);
    while i < count
        invariant
            i <= count,
            text@ == old(text)@ + spaces(i as int),
        decreases count - i,
    {
        proof {
            reveal_strlit(" ");
            assert(" "@ == seq![' ']);
            assert(spaces(i as int) + seq![' '] == spaces(i + 1));
        }
        text.append(" ");
        i = i + 1;
    }
}

/// Sets `text` to the right of a field of `width` characters.
pub fn pad_left(text: &str, width: usize) -> (out: String)
    ensures
        out@ == padded(text@, width as int),
{
    let len: usize = text.unicode_len();
    let mut out = String::new();
    if len < width {
        push_spaces(&mut out, width - len);
    }
    assert(out@ == spaces(width - len));
    out.append(text);
    out
}

/// `text` without its first character.
pub fn remove_first(text: &str) -> (rest: &str)
    requires
        text@.len() > 0,
    ensures
        rest@ == text@.skip(1),
{
    text.substring_char(1, text.unicode_len())
}

/// The number that a decimal digit stands for; `None` for any other
/// character.
pub open spec fn digit_value(c: char) -> Option<nat> {
    if '0' <= c <= '9' {
        Some((c as u32 - '0' as u32) as nat)
    } else {
        None
    }
}

/// The number that a row of decimal digits stands for; `None` where the row
/// is empty or holds anything but digits.
pub open spec fn digits_value(digits: Seq<char>) -> Option<nat>
    decreases digits.len(),
{
    if digits.len() == 0 {
        None
    } else if digits.len() == 1 {
        digit_value(digits[0])
    } else {
        match (digits_value(digits.drop_last()), digit_value(digits.last())) {
            (Some(front), Some(last)) => Some(front * 10 + last),
            _ => None,
        }
    }
}

/// The number that `text` stands for: decimal digits, at least one, which
/// a `+` may precede, and nothing else; `None` for any other text and for a
/// number greater than `max`.
pub open spec fn parsed_number(text: Seq<char>, max: nat) -> Option<nat> {
    let digits = if text.len() > 0 && text[0] == '+' {
        text.skip(1)
    } else {
        text
    };
    match digits_value(digits) {
        Some(value) if value <= max => Some(value),
        _ => None,
    }
}

/// A row of digits stands for a number at least as great as any shorter
/// row that it begins with.
pub proof fn lemma_digits_value_grows(digits: Seq<char>, upto: int)
    requires
        1 <= upto <= digits.len(),
        digits_value(digits) is Some,
    ensures
        digits_value(digits.take(upto)) is Some,
        digits_value(digits.take(upto))->Some_0 <= digits_value(digits)->Some_0,
    decreases digits.len(),
{
    if upto == digits.len() {
        assert(digits.take(upto) == digits);
    } else {
        let front = digits.drop_last();
        assert(front.take(upto) == digits.take(upto));
        lemma_digits_value_grows(front, upto);
    }
}

/// Computes `digit_value`.
pub fn digit_of(c: char) -> (digit: Option<u64>)
    ensures
        match digit {
            Some(d) => digit_value(c) == Some(d as nat) && d <= 9,
            None => digit_value(c) is None,
        },
{
    if '0' <= c && c <= '9' {
        Some((c as u32 - '0' as u32) as u64)
    } else {
        None
    }
}

/// Reads `text` as a decimal number that is at most `max`: see
/// `parsed_number`.
pub fn parse_number(text: &str, max: u64) -> (number: Option<u64>)
    ensures
        match number {
            Some(n) => parsed_number(text@, max as nat) == Some(n as nat),
            None => parsed_number(text@, max as nat) is None,
        },
{
    let len: usize = text.unicode_len();
    let start: usize = if len > 0 && text.get_char(0) == '+' {
        1
    } else {
        0
    };
    if start == len {
        return None;
    }
    let digits: &str = text.substring_char(start, len);
    assert(digits@ == if text@.len() > 0 && text@[0] == '+' {
        text@.skip(1)
    } else {
        text@
    });
    let count: usize = len - start;
    let mut value: u64 = 0;
    let mut i: usize = 0;
    for c in it: digits.chars()
        invariant
            it.seq() == digits@,
            digits@ == if text@.len() > 0 && text@[0] == '+' {
                text@.skip(1)
            } else {
                text@
            },
            count == digits@.len(),
            i == it.index(),
            i <= count,
            value <= max,
            i > 0 ==> digits_value(digits@.take(i as int)) == Some(value as nat),
            i == 0 ==> value == 0,
    {
        let ghost upto = digits@.take(i + 1);
        proof {
            assert(upto.drop_last() == digits@.take(i as int));
            assert(upto.last() == c);
        }
        match digit_of(c) {
            Some(d) => {
                if d > max || value > (max - d) / 10 {
                    proof {
                        assert(value * 10 + d > max);
                        assert(digits_value(upto) == Some((value * 10 + d) as nat));
                        if digits_value(digits@) is Some {
                            lemma_digits_value_grows(digits@, i + 1);
                        }
                    }
                    return None;
                }
                assert(digits_value(upto) == Some((value * 10 + d) as nat));
                value = value * 10 + d;
            },
            None => {
                proof {
                    assert(digits_value(upto) is None);
                    if digits_value(digits@) is Some {
                        lemma_digits_value_grows(digits@, i + 1);
                    }
                }
                return None;
            },
        }
        i = i + 1;
    }
    assert(digits@.take(count as int) == digits@);
    Some(value)
}

/// The whole number that `text` stands for: decimal digits, at least one,
/// which a `+` or a `-` may precede, and nothing else; `None` for any other
/// text. The number may be of any size.
pub open spec fn parsed_integer(text: Seq<char>) -> Option<int> {
    if text.len() > 0 && text[0] == '-' {
        match digits_value(text.skip(1)) {
            Some(value) => Some(-(value as int)),
            None => None,
        }
    } else {
        let digits = if text.len() > 0 && text[0] == '+' {
            text.skip(1)
        } else {
            text
        };
        match digits_value(digits) {
            Some(value) => Some(value as int),
            None => None,
        }
    }
}

/// The lesser of a number and a cap.
pub open spec fn capped(value: nat, cap: nat) -> nat {
    if value < cap {
        value
    } else {
        cap
    }
}

/// The priority nearest to a whole number.
pub open spec fn clamped_priority(number: int) -> u8 {
    if number < PRIORITY_MIN {
        PRIORITY_MIN
    } else if number > PRIORITY_MAX {
        PRIORITY_MAX
    } else {
        number as u8
    }
}

/// The priority that the command line stands for: where it gives a priority
/// exactly once and that is a whole number, the priority nearest to the
/// number, however great or small; the default where it gives none, or more
/// than one, or text that is no whole number.
pub open spec fn priority_from_args(occurrences: u64, value: Seq<char>) -> u8 {
    if occurrences == 1 {
        match parsed_integer(value) {
            Some(number) => clamped_priority(number),
            None => PRIORITY_DEFAULT,
        }
    } else {
        PRIORITY_DEFAULT
    }
}

/// Reads a row of digits as a number, of which no more than `cap` is kept:
/// gives the lesser of the number and `cap`, or `None` where the row is
/// empty or holds anything but digits.
pub fn read_digits(digits: &str, cap: u64) -> (value: Option<u64>)
    ensures
        match value {
            Some(v) => digits_value(digits@) is Some && v == capped(
                digits_value(digits@)->Some_0,
                cap as nat,
            ),
            None => digits_value(digits@) is None,
        },
{
    let count: usize = digits.unicode_len();
    if count == 0 {
        return None;
    }
    let mut value: u64 = 0;
    let mut i: usize = 0;
    for c in it: digits.chars()
        invariant
            it.seq() == digits@,
            count == digits@.len(),
            i == it.index(),
            i <= count,
            value <= cap,
            i == 0 ==> value == 0,
            i > 0 ==> digits_value(digits@.take(i as int)) is Some && value == capped(
                digits_value(digits@.take(i as int))->Some_0,
                cap as nat,
            ),
    {
        let ghost upto = digits@.take(i + 1);
        proof {
            assert(upto.drop_last() == digits@.take(i as int));
            assert(upto.last() == c);
        }
        match digit_of(c) {
            Some(d) => {
                assert(digits_value(upto) is Some);
                value = if value <= (u64::MAX - d) / 10 && value * 10 + d <= cap {
                    value * 10 + d
                } else {
                    cap
                };
            },
            None => {
                proof {
                    assert(digits_value(upto) is None);
                    if digits_value(digits@) is Some {
                        lemma_digits_value_grows(digits@, i + 1);
                    }
                }
                return None;
            },
        }
        i = i + 1;
    }
    assert(digits@.take(count as int) == digits@);
    Some(value)
}

/// Computes `priority_from_args`: `occurrences` says how often the priority
/// was given, `value` is what was given last.
pub fn get_priority(occurrences: u64, value: &str) -> (priority: u8)
    ensures
        priority == priority_from_args(occurrences, value@),
        PRIORITY_MIN <= priority <= PRIORITY_MAX,
{
    if occurrences != 1 {
        return PRIORITY_DEFAULT;
    }
    let len: usize = value.unicode_len();
    let negative: bool = len > 0 && value.get_char(0) == '-';
    let signed: bool = negative || (len > 0 && value.get_char(0) == '+');
    let digits: &str = if signed {
        value.substring_char(1, len)
    } else {
        value
    };
    match read_digits(digits, 6) {
        Some(magnitude) => {
            if negative {
                PRIORITY_MIN
            } else {
                resolve_priority(Some(magnitude as u8))
            }
        },
        None => PRIORITY_DEFAULT,
    }
}

/// The id that the command line gives, or what is reported where it gives no
/// number that can be an id.
pub fn get_task_id(given: &str) -> (id: Result<usize, String>)
    ensures
        match id {
            Ok(id) => parsed_number(given@, usize::MAX as nat) == Some(id as nat),
            Err(message) => parsed_number(given@, usize::MAX as nat) is None && message@
                == invalid_id_message(given@),
        },
{
    match parse_number(given, usize::MAX as u64) {
        Some(id) => Ok(id as usize),
        None => Err(err_invalid_task_id(given)),
    }
}

/// The name of the file that is used below the home directory.
pub open spec fn default_file_name() -> Seq<char> {
    seq!['/', 't', 'o', 'd', 'o', '.', 'j', 's', 'o', 'n']
}

/// Where the task list is kept: the file that was chosen, else the default
/// file below the home directory, and nowhere if neither is known.
pub open spec fn file_path(chosen: Option<Seq<char>>, home: Option<Seq<char>>) -> Option<Seq<char>> {
    match chosen {
        Some(path) => Some(path),
        None => match home {
            Some(dir) => Some(dir + default_file_name()),
            None => None,
        },
    }
}

/// Computes `file_path` from the two settings of the environment.
pub fn get_file_path(chosen: Option<String>, home: Option<String>) -> (path: Option<String>)
    ensures
        match path {
            Some(path) => file_path(
                match chosen {
                    Some(c) => Some(c@),
                    None => None,
                },
                match home {
                    Some(h) => Some(h@),
                    None => None,
                },
            ) == Some(path@),
            None => chosen is None && home is None,
        },
{
    match chosen {
        Some(path) => Some(path),
        None => match home {
            Some(dir) => {
                proof {
                    reveal_strlit("/todo.json");
                    assert("/todo.json"@ == default_file_name());
                }
                let mut path = dir;
                path.append("/todo.json");
                Some(path)
            },
            None => None,
        },
    }
}

/// What is reported when no task has the id: a sentence that ends in the id.
pub open spec fn no_task_message(id: usize) -> Seq<char> {
    "Could not find task with ID "@ + decimal(id as nat)
}

/// Writes `no_task_message`.
pub fn err_no_task(id: usize) -> (message: String)
    ensures
        message@ == no_task_message(id),
{
    let mut message = "Could not find task with ID ".to_owned();
    message.append(decimal_string(id).as_str());
    message
}

/// What is reported when the id on the command line is no number: a
/// sentence that ends in what was given.
pub open spec fn invalid_id_message(given: Seq<char>) -> Seq<char> {
    "Invalid task id: "@ + given
}

/// Writes `invalid_id_message`.
pub fn err_invalid_task_id(given: &str) -> (message: String)
    ensures
        message@ == invalid_id_message(given@),
{
    let mut message = "Invalid task id: ".to_owned();
    message.append(given);
    message
}

/// The mark that begins the report of an error.
pub open spec fn error_mark() -> Seq<char> {
    seq!['[', '!', ']']
}

/// Whether `line` reports `message` as an error on some terminal: the mark
/// in red, a space and the message.
pub open spec fn is_error_line(line: Seq<char>, message: Seq<char>) -> bool {
    exists|mark: Seq<char>|
        #![trigger is_emphasis_of(mark, error_mark(), Tint::Red)]
        is_emphasis_of(mark, error_mark(), Tint::Red) && line == mark + seq![' '] + message
}

/// The line that reports `message` as an error.
pub fn error_line(message: &str) -> (line: String)
    ensures
        is_error_line(line@, message@),
{
    proof {
        reveal_strlit("[!]");
        reveal_strlit(" ");
        assert("[!]"@ == error_mark());
        assert(" "@ == seq![' ']);
    }
    let mark = emphasize("[!]", Tint::Red);
    let mut line = mark.clone();
    line.append(" ");
    line.append(message);
    assert(is_emphasis_of(mark@, error_mark(), Tint::Red));
    line
}

/// Values whose decimal width can be measured.
pub trait NumberOfDigits {
    /// The number that is measured.
    spec fn value(&self) -> nat;

    /// Number of decimal digits of the value; zero has one digit.
    fn number_of_digits(&self) -> (digits: usize)
        ensures
            digits == decimal_digits(self.value()),
    ;
}

impl NumberOfDigits for usize {
    open spec fn value(&self) -> nat {
        *self as nat
    }

    fn number_of_digits(&self) -> (digits: usize) {
        let mut rest: usize = *self;
        let mut digits: usize = 1;
        while rest >= 10
            invariant
                digits >= 1,
                rest <= *self,
                digits - 1 + decimal_digits(rest as nat) == decimal_digits(*self as nat),
            decreases rest,
        {
            proof {
                lemma_decimal_digits_bound(*self as nat);
                lemma_decimal_digits_bound((rest / 10) as nat);
            }
            rest = rest / 10;
            digits = digits + 1;
        }
        digits
    }
}

} // verus!
